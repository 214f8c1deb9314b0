//! Ingestão de listas M3U: validação das fontes, rótulo padrão de uma lista,
//! as linhas que cada entrada grava, a contagem do relatório e os marcos de
//! progresso.

use std::collections::HashSet;

use vstd::prelude::*;

use crate::ids::{hex_value, id_key, is_id_text, lemma_hex_value_injective};
use crate::m3u::{entry_episode_id, entry_item_id, kind_text, opt_text, Entry, EntryKind, EntryView, Outcome};
use crate::text::{
    chars_of, contains_lit, contains_seq, eq_lit, push_chars, push_lit, slice_chars, string_of, trim,
    trim_chars,
};

verus! {

/// A cada quantas entradas a UI recebe um marco de progresso.
pub const PROGRESS_EVERY: usize = 500;

#[derive(Clone, Debug)]
pub struct Source {
    pub id: i64,
    pub url: String,
    pub label: String,
    pub kind: String,
    pub enabled: bool,
    pub added_at: i64,
    pub last_sync_at: Option<i64>,
    pub item_count: i64,
}

#[derive(Clone, Debug)]
pub struct ImportReport {
    pub source: Source,
    pub parsed: usize,
    pub discarded: usize,
    pub movies: usize,
    pub series: usize,
    pub channels: usize,
}

pub open spec fn is_source_kind(kind: Seq<char>) -> bool {
    kind == "url"@ || kind == "file"@
}

/// Antes de gravar uma fonte: URL (ou caminho) não vazia depois de aparada, e
/// tipo `url` ou `file`. Devolve a URL aparada, que é a chave da fonte.
pub fn check_source(url: &str, kind: &str) -> (r: Result<String, String>)
    ensures
        trim(url@).len() == 0 ==> (r matches Err(m) && m@ == "informe a URL ou o arquivo da lista"@),
        trim(url@).len() > 0 && !is_source_kind(kind@) ==> (r matches Err(m) && m@
            == "tipo de fonte inválido: "@ + kind@),
        trim(url@).len() > 0 && is_source_kind(kind@) ==> (r matches Ok(u) && u@ == trim(url@)),
{
    let u = chars_of(url);
    let trimmed = trim_chars(u.as_slice());
    if trimmed.len() == 0 {
        return Err(String::from_str("informe a URL ou o arquivo da lista"));
    }
    let k = chars_of(kind);
    if !(eq_lit(k.as_slice(), "url") || eq_lit(k.as_slice(), "file")) {
        let mut message: Vec<char> = Vec::new();
        push_lit(&mut message, "tipo de fonte inválido: ");
        push_chars(&mut message, k.as_slice());
        return Err(string_of(message.as_slice()));
    }
    Ok(string_of(trimmed.as_slice()))
}

/// Depois de um import que falhou (download ou lista), a fonte só é removida
/// se acabou de ser criada: uma fonte que já existia nunca some por isso.
pub fn remove_after_failure(failed: bool, was_new: bool) -> (r: bool)
    ensures
        r == (failed && was_new),
{
    failed && was_new
}

/// Lista sem nenhuma entrada reconhecida faz o import falhar inteiro (a
/// transação não é confirmada); com ao menos uma, segue.
pub fn check_outcome(outcome: &Outcome) -> (r: Result<(), String>)
    ensures
        r is Ok <==> outcome.parsed > 0,
        r matches Err(m) ==> m@ == "nenhuma entrada reconhecida na lista"@,
{
    if outcome.parsed == 0 {
        Err(String::from_str("nenhuma entrada reconhecida na lista"))
    } else {
        Ok(())
    }
}

/// Marco que a UI recebe durante o parse, quando a entrada de número `parsed`
/// acaba de entrar: um bloco de 500 só é anunciado quando a entrada seguinte
/// chega, para que o total nunca saia como marco intermediário.
pub open spec fn mark_on_entry_spec(parsed: nat) -> Option<nat> {
    if parsed > 1 && (parsed - 1) % 500 == 0 {
        Some((parsed - 1) as nat)
    } else {
        None
    }
}

pub fn mark_on_entry(parsed: usize) -> (r: Option<usize>)
    ensures
        match r {
            Some(m) => mark_on_entry_spec(parsed as nat) == Some(m as nat),
            None => mark_on_entry_spec(parsed as nat) is None,
        },
{
    if parsed > 1 && (parsed - 1) % PROGRESS_EVERY == 0 {
        Some(parsed - 1)
    } else {
        None
    }
}

/// Os marcos mandados ao longo das entradas 1, 2, ..., `n`.
pub open spec fn marks_during(n: nat) -> Seq<nat>
    decreases n,
{
    if n == 0 {
        seq![]
    } else {
        let rest = marks_during((n - 1) as nat);
        match mark_on_entry_spec(n) {
            Some(m) => rest.push(m),
            None => rest,
        }
    }
}

proof fn lemma_marks_during(n: nat)
    requires
        n > 0,
    ensures
        marks_during(n) == Seq::new(block_marks(n), |i: int| (500 * (i + 1)) as nat),
    decreases n,
{
    if n == 1 {
        assert(marks_during(0) =~= Seq::<nat>::empty());
        assert(mark_on_entry_spec(1) is None);
        assert(marks_during(1) =~= Seq::<nat>::empty());
    } else {
        lemma_marks_during((n - 1) as nat);
        let q = ((n - 2) as nat) / 500;
        let r = ((n - 2) as nat) % 500;
        assert(n - 2 == 500 * q + r && 0 <= r < 500);
        if r == 499 {
            assert(((n - 1) as nat) / 500 == q + 1 && ((n - 1) as nat) % 500 == 0) by {
                assert(n - 1 == 500 * (q + 1));
            }
            assert(marks_during(n) =~= Seq::new(block_marks(n), |i: int| (500 * (i + 1)) as nat));
        } else {
            assert(((n - 1) as nat) / 500 == q && ((n - 1) as nat) % 500 == r + 1) by {
                assert(n - 1 == 500 * q + (r + 1));
            }
            assert(marks_during(n) =~= Seq::new(block_marks(n), |i: int| (500 * (i + 1)) as nat));
        }
    }
}

/// Os marcos mandados durante o parse, mais o total no fim, são exatamente os
/// marcos do import: a UI vê o progresso enquanto a lista ainda é lida.
pub proof fn law_marks_during_parse(n: nat)
    requires
        n > 0,
    ensures
        marks_during(n).push(n) == progress_marks_spec(n),
{
    lemma_marks_during(n);
}

/// Marcos intermediários: múltiplos de 500 estritamente abaixo do total.
pub open spec fn block_marks(parsed: nat) -> nat {
    if parsed == 0 { 0 } else { ((parsed - 1) as nat) / 500 }
}

/// Os marcos que a UI recebe: 500, 1000, ... abaixo do total, e o total.
pub open spec fn progress_marks_spec(parsed: nat) -> Seq<nat> {
    Seq::new(block_marks(parsed), |i: int| (500 * (i + 1)) as nat).push(parsed)
}

pub fn progress_marks(parsed: usize) -> (r: Vec<usize>)
    ensures
        r@.len() == progress_marks_spec(parsed as nat).len(),
        forall|i: int| 0 <= i < r@.len() ==> r@[i] as nat == #[trigger] progress_marks_spec(parsed as nat)[i],
{
    let mut marks: Vec<usize> = Vec::new();
    let mut reported: usize = 0;
    while reported < parsed && parsed - reported > PROGRESS_EVERY
        invariant
            reported <= parsed,
            reported == 500 * marks@.len(),
            forall|i: int| 0 <= i < marks@.len() ==> marks@[i] == 500 * (i + 1),
            marks@.len() <= block_marks(parsed as nat),
        decreases parsed - reported,
    {
        reported += PROGRESS_EVERY;
        marks.push(reported);
    }
    assert(marks@.len() == block_marks(parsed as nat));
    marks.push(parsed);
    marks
}

/// Pedaço que serve de rótulo numa URL: não vazio e sem `:` (o esquema).
pub open spec fn label_piece(p: Seq<char>) -> bool {
    p.len() > 0 && !p.contains(':')
}

pub open spec fn first_label_piece(ps: Seq<Seq<char>>) -> Option<Seq<char>>
    decreases ps.len(),
{
    if ps.len() == 0 {
        None
    } else if label_piece(ps[0]) {
        Some(ps[0])
    } else {
        first_label_piece(ps.drop_first())
    }
}

pub open spec fn is_path_sep(c: char) -> bool {
    c == '/' || c == '\\'
}

/// O texto depois do último separador de caminho.
pub open spec fn last_piece(s: Seq<char>) -> Seq<char>
    decreases s.len(),
{
    if s.len() == 0 || is_path_sep(s.last()) {
        seq![]
    } else {
        last_piece(s.drop_last()).push(s.last())
    }
}

/// Nome do arquivo de um caminho: o último pedaço não vazio.
pub open spec fn file_name(s: Seq<char>) -> Seq<char>
    decreases s.len(),
{
    if s.len() > 0 && is_path_sep(s.last()) {
        file_name(s.drop_last())
    } else {
        last_piece(s)
    }
}

/// "http://host/get.php?..." vira "host"; um arquivo vira o nome do arquivo;
/// sem nenhum dos dois, "Minha lista".
pub open spec fn default_label_spec(url_or_path: Seq<char>) -> Seq<char> {
    let label = if contains_seq(url_or_path, "://"@) {
        match first_label_piece(crate::subtitles::split_on(url_or_path, '/')) {
            Some(p) => p,
            None => seq![],
        }
    } else {
        file_name(url_or_path)
    };
    if label.len() > 0 { label } else { "Minha lista"@ }
}

fn host_label(v: &[char]) -> (r: Vec<char>)
    ensures
        r@ == match first_label_piece(crate::subtitles::split_on(v@, '/')) {
            Some(p) => p,
            None => seq![],
        },
{
    let n = v.len();
    let mut parts: Vec<Vec<char>> = Vec::new();
    let mut cur: Vec<char> = Vec::new();
    let mut i: usize = 0;
    while i < n
        invariant
            i <= n == v@.len(),
            (parts.deep_view(), cur@) == crate::subtitles::split_state(v@.take(i as int), '/'),
        decreases n - i,
    {
        assert(v@.take(i + 1).drop_last() =~= v@.take(i as int));
        if v[i] == '/' {
            let ghost before = parts.deep_view();
            let ghost c = cur@;
            proof { crate::text::lemma_deep_view_chars(&cur); }
            parts.push(cur);
            assert(parts.deep_view() =~= before.push(c));
            cur = Vec::new();
        } else {
            cur.push(v[i]);
        }
        i += 1;
    }
    assert(v@.take(n as int) =~= v@);
    let ghost before = parts.deep_view();
    let ghost c = cur@;
    proof { crate::text::lemma_deep_view_chars(&cur); }
    parts.push(cur);
    assert(parts.deep_view() =~= before.push(c));
    let ghost ps = parts.deep_view();
    assert(ps == crate::subtitles::split_on(v@, '/'));
    let mut k: usize = 0;
    assert(ps.skip(0) =~= ps);
    while k < parts.len()
        invariant
            k <= parts@.len(),
            ps == parts.deep_view(),
            ps == crate::subtitles::split_on(v@, '/'),
            first_label_piece(ps) == first_label_piece(ps.skip(k as int)),
        decreases parts@.len() - k,
    {
        assert(ps.skip(k as int)[0] == parts@[k as int]@);
        let part = parts[k].as_slice();
        let mut has_colon = false;
        let mut j: usize = 0;
        while j < part.len()
            invariant
                j <= part@.len(),
                has_colon == (exists|m: int| 0 <= m < j && part@[m] == ':'),
            decreases part@.len() - j,
        {
            if part[j] == ':' {
                has_colon = true;
            }
            j += 1;
        }
        assert(has_colon == part@.contains(':'));
        if part.len() > 0 && !has_colon {
            assert(label_piece(ps.skip(k as int)[0]));
            return slice_chars(part, 0, part.len());
        }
        assert(ps.skip(k as int).drop_first() =~= ps.skip(k + 1));
        k += 1;
    }
    Vec::new()
}

proof fn lemma_last_piece_suffix(s: Seq<char>, start: int)
    requires
        0 <= start <= s.len(),
        start == 0 || is_path_sep(s[start - 1]),
        forall|k: int| start <= k < s.len() ==> !is_path_sep(#[trigger] s[k]),
    ensures
        last_piece(s) == s.subrange(start, s.len() as int),
    decreases s.len(),
{
    if s.len() > start {
        lemma_last_piece_suffix(s.drop_last(), start);
        assert(s.subrange(start, s.len() as int) =~= s.drop_last().subrange(start, s.len() - 1).push(s.last()));
    } else if s.len() > 0 {
        assert(is_path_sep(s.last()));
    }
}

proof fn lemma_file_name_trailing(s: Seq<char>, end: int)
    requires
        0 <= end <= s.len(),
        forall|k: int| end <= k < s.len() ==> is_path_sep(#[trigger] s[k]),
    ensures
        file_name(s) == file_name(s.take(end)),
    decreases s.len(),
{
    if s.len() > end {
        assert(is_path_sep(s[s.len() - 1]));
        lemma_file_name_trailing(s.drop_last(), end);
        assert(s.drop_last().take(end) =~= s.take(end));
    } else {
        assert(s.take(end) =~= s);
    }
}

fn file_label(v: &[char]) -> (r: Vec<char>)
    ensures
        r@ == file_name(v@),
{
    let mut end: usize = v.len();
    while end > 0 && (v[end - 1] == '/' || v[end - 1] == '\\')
        invariant
            end <= v@.len(),
            forall|k: int| end <= k < v@.len() ==> is_path_sep(#[trigger] v@[k]),
        decreases end,
    {
        end -= 1;
    }
    proof { lemma_file_name_trailing(v@, end as int); }
    let mut start: usize = end;
    while start > 0 && !(v[start - 1] == '/' || v[start - 1] == '\\')
        invariant
            start <= end <= v@.len(),
            forall|k: int| start <= k < end ==> !is_path_sep(#[trigger] v@[k]),
        decreases start,
    {
        start -= 1;
    }
    let ghost t = v@.take(end as int);
    assert(end == 0 || !is_path_sep(t.last()));
    proof { lemma_last_piece_suffix(t, start as int); }
    assert(t.subrange(start as int, end as int) =~= v@.subrange(start as int, end as int));
    slice_chars(v, start, end)
}

pub fn default_label(url_or_path: &str) -> (r: String)
    ensures
        r@ == default_label_spec(url_or_path@),
{
    let v = chars_of(url_or_path);
    let label = if contains_lit(v.as_slice(), "://") {
        host_label(v.as_slice())
    } else {
        file_label(v.as_slice())
    };
    if label.len() > 0 {
        string_of(label.as_slice())
    } else {
        String::from_str("Minha lista")
    }
}

/// Rótulo de uma fonte nova: o que o usuário deu, se não for só espaço; senão
/// o rótulo tirado da URL ou do caminho.
pub fn source_label(label: Option<&str>, url_or_path: &str) -> (r: String)
    ensures
        r@ == match label {
            Some(l) => if trim(l@).len() > 0 { l@ } else { default_label_spec(url_or_path@) },
            None => default_label_spec(url_or_path@),
        },
{
    if let Some(l) = label {
        let v = chars_of(l);
        let t = trim_chars(v.as_slice());
        if t.len() > 0 {
            return String::from_str(l);
        }
    }
    default_label(url_or_path)
}


// ---------------------------------------------------------------- linhas do banco

/// Linha de `items`.
pub struct ItemRow {
    pub id: String,
    pub kind: String,
    pub title: String,
    pub title_norm: String,
    pub year: Option<i64>,
    pub logo: Option<String>,
    pub group_name: Option<String>,
}

/// Linha de `episodes`.
pub struct EpisodeRow {
    pub id: String,
    pub series_id: String,
    pub season: Option<i64>,
    pub episode: Option<i64>,
    pub title: Option<String>,
}

/// Linha de `streams` (a fonte é posta por quem grava).
pub struct StreamRow {
    pub owner_id: String,
    pub owner_kind: String,
    pub url: String,
    pub quality: Option<String>,
    pub channel_number: Option<i64>,
    /// Versão do áudio ("Dublado", "Legendado"): é ela que distingue duas
    /// versões do mesmo título.
    pub variant: Option<String>,
}

/// O que uma entrada da lista grava: o título, o episódio quando é um, e o
/// stream — dono é o episódio quando há episódio, senão o título.
pub struct EntryRows {
    pub item: ItemRow,
    pub episode: Option<EpisodeRow>,
    pub stream: StreamRow,
}

/// A entrada vira linha de episódio: série com temporada e episódio.
pub open spec fn writes_episode(e: EntryView) -> bool {
    e.kind == EntryKind::Series && entry_episode_id(e) is Some
}

pub open spec fn rows_ok(e: EntryView, r: EntryRows) -> bool {
    &&& r.item.id@ == entry_item_id(e)
    &&& r.item.kind@ == kind_text(e.kind)
    &&& r.item.title@ == e.title
    &&& r.item.title_norm@ == e.title_norm
    &&& r.item.year == e.year
    &&& opt_text(r.item.logo) == e.logo
    &&& opt_text(r.item.group_name) == e.group_name
    &&& r.stream.url@ == e.url
    &&& opt_text(r.stream.quality) == e.quality
    &&& opt_text(r.stream.variant) == e.variant
    &&& if writes_episode(e) {
        &&& r.episode matches Some(ep)
        &&& ep.id@ == entry_episode_id(e)->0
        &&& ep.series_id@ == entry_item_id(e)
        &&& ep.season == e.season
        &&& ep.episode == e.episode
        &&& opt_text(ep.title) == e.episode_title
        &&& r.stream.owner_id@ == entry_episode_id(e)->0
        &&& r.stream.owner_kind@ == "episode"@
        &&& r.stream.channel_number is None
    } else {
        &&& r.episode is None
        &&& r.stream.owner_id@ == entry_item_id(e)
        &&& r.stream.owner_kind@ == "item"@
        &&& r.stream.channel_number == e.channel_number
    }
}

fn clone_text(o: &Option<String>) -> (r: Option<String>)
    ensures
        opt_text(r) == opt_text(*o),
{
    match o {
        Some(s) => Some(s.clone()),
        None => None,
    }
}

/// As linhas que a ingestão grava para uma entrada.
pub fn rows_for(entry: &Entry) -> (r: EntryRows)
    ensures
        rows_ok(entry@, r),
{
    let item_id = entry.item_id();
    let item = ItemRow {
        id: item_id.clone(),
        kind: String::from_str(entry.kind.as_str()),
        title: entry.title.clone(),
        title_norm: entry.title_norm.clone(),
        year: entry.year,
        logo: clone_text(&entry.logo),
        group_name: clone_text(&entry.group_name),
    };
    let episode_id = entry.episode_id();
    match (entry.kind, episode_id) {
        (EntryKind::Series, Some(episode_id)) => {
            let episode = EpisodeRow {
                id: episode_id.clone(),
                series_id: item_id,
                season: entry.season,
                episode: entry.episode,
                title: clone_text(&entry.episode_title),
            };
            let stream = StreamRow {
                owner_id: episode_id,
                owner_kind: String::from_str("episode"),
                url: entry.url.clone(),
                quality: clone_text(&entry.quality),
                channel_number: None,
                variant: clone_text(&entry.variant),
            };
            EntryRows { item, episode: Some(episode), stream }
        },
        _ => {
            let stream = StreamRow {
                owner_id: item_id,
                owner_kind: String::from_str("item"),
                url: entry.url.clone(),
                quality: clone_text(&entry.quality),
                channel_number: entry.channel_number,
                variant: clone_text(&entry.variant),
            };
            EntryRows { item, episode: None, stream }
        },
    }
}


/// Mensagem de erro de uma operação recusada pelo banco.
pub fn stringify(detail: &str) -> (r: String)
    ensures
        r@ == "banco recusou a operação: "@ + detail@,
{
    let mut out: Vec<char> = Vec::new();
    push_lit(&mut out, "banco recusou a operação: ");
    let d = chars_of(detail);
    push_chars(&mut out, d.as_slice());
    string_of(out.as_slice())
}


// ---------------------------------------------------------------- contagem do relatório

/// Os títulos distintos que uma ingestão gravou, por tipo. O relatório fala
/// na mesma unidade da fonte: duas linhas da mesma série são uma série, duas
/// versões do mesmo filme são um filme.
pub struct TallyView {
    pub movies: Set<Seq<char>>,
    pub series: Set<Seq<char>>,
    pub channels: Set<Seq<char>>,
}

impl TallyView {
    pub open spec fn empty() -> TallyView {
        TallyView { movies: Set::empty(), series: Set::empty(), channels: Set::empty() }
    }

    pub open spec fn record(self, kind: EntryKind, id: Seq<char>) -> TallyView {
        match kind {
            EntryKind::Movie => TallyView { movies: self.movies.insert(id), ..self },
            EntryKind::Series => TallyView { series: self.series.insert(id), ..self },
            EntryKind::Channel => TallyView { channels: self.channels.insert(id), ..self },
        }
    }
}

/// Ids guardados como chave numérica: o conjunto de chaves e o de ids andam
/// juntos, do mesmo tamanho.
pub open spec fn keyed(keys: Set<u128>, ids: Set<Seq<char>>) -> bool {
    &&& ids.finite()
    &&& keys.finite()
    &&& keys.len() == ids.len()
    &&& forall|s: Seq<char>| #[trigger] ids.contains(s) ==> is_id_text(s) && keys.contains(hex_value(s) as u128)
    &&& forall|k: u128| #[trigger] keys.contains(k) ==> exists|s: Seq<char>| #[trigger] ids.contains(s) && hex_value(s) == k
}

pub struct Tally {
    movies: HashSet<u128>,
    series: HashSet<u128>,
    channels: HashSet<u128>,
    seen: Ghost<TallyView>,
}

impl View for Tally {
    type V = TallyView;

    closed spec fn view(&self) -> TallyView {
        self.seen@
    }
}

proof fn lemma_keyed_insert(keys: Set<u128>, ids: Set<Seq<char>>, s: Seq<char>, k: u128)
    requires
        keyed(keys, ids),
        is_id_text(s),
        k == hex_value(s),
    ensures
        keyed(keys.insert(k), ids.insert(s)),
{
    if ids.contains(s) {
        assert(keys.insert(k) =~= keys);
        assert(ids.insert(s) =~= ids);
    } else {
        if keys.contains(k) {
            let t = choose|t: Seq<char>| #[trigger] ids.contains(t) && hex_value(t) == k;
            lemma_hex_value_injective(s, t);
        }
        let (nk, ns) = (keys.insert(k), ids.insert(s));
        assert forall|k2: u128| #[trigger] nk.contains(k2) implies exists|t: Seq<char>| #[trigger] ns.contains(t) && hex_value(t) == k2 by {
            if k2 == k {
                assert(ns.contains(s));
            } else {
                let t = choose|t: Seq<char>| #[trigger] ids.contains(t) && hex_value(t) == k2;
                assert(ns.contains(t));
            }
        }
    }
}

impl Tally {
    pub closed spec fn wf(&self) -> bool {
        &&& keyed(self.movies@, self.seen@.movies)
        &&& keyed(self.series@, self.seen@.series)
        &&& keyed(self.channels@, self.seen@.channels)
    }

    pub fn new() -> (t: Tally)
        ensures
            t.wf(),
            t@ == TallyView::empty(),
    {
        broadcast use vstd::std_specs::hash::group_hash_axioms;
        Tally {
            movies: HashSet::new(),
            series: HashSet::new(),
            channels: HashSet::new(),
            seen: Ghost(TallyView::empty()),
        }
    }

    /// Conta o título da entrada no seu tipo.
    pub fn record(&mut self, entry: &Entry)
        requires
            old(self).wf(),
        ensures
            final(self).wf(),
            final(self)@ == old(self)@.record(entry@.kind, entry_item_id(entry@)),
    {
        broadcast use vstd::std_specs::hash::group_hash_axioms;
        let id = entry.item_id();
        let k = id_key(id.as_str());
        let ghost before = self.seen@;
        match entry.kind {
            EntryKind::Movie => {
                proof { lemma_keyed_insert(self.movies@, before.movies, id@, k); }
                self.movies.insert(k);
            },
            EntryKind::Series => {
                proof { lemma_keyed_insert(self.series@, before.series, id@, k); }
                self.series.insert(k);
            },
            EntryKind::Channel => {
                proof { lemma_keyed_insert(self.channels@, before.channels, id@, k); }
                self.channels.insert(k);
            },
        }
        self.seen = Ghost(before.record(entry@.kind, id@));
    }

    /// Filmes, séries e canais distintos, nessa ordem.
    pub fn counts(&self) -> (r: (usize, usize, usize))
        requires
            self.wf(),
        ensures
            r.0 == self@.movies.len(),
            r.1 == self@.series.len(),
            r.2 == self@.channels.len(),
    {
        broadcast use vstd::std_specs::hash::group_hash_axioms;
        (self.movies.len(), self.series.len(), self.channels.len())
    }
}

// ---------------------------------------------------------------- leis

/// Marcos crescentes, o último é o total, e os anteriores são blocos de 500
/// abaixo dele: a UI recebe progresso parcial antes do total.
pub proof fn law_progress_marks(parsed: nat)
    ensures
        progress_marks_spec(parsed).last() == parsed,
        forall|i: int, j: int| 0 <= i < j < progress_marks_spec(parsed).len() ==>
            #[trigger] progress_marks_spec(parsed)[i] < #[trigger] progress_marks_spec(parsed)[j],
        forall|i: int| 0 <= i < progress_marks_spec(parsed).len() - 1 ==>
            #[trigger] progress_marks_spec(parsed)[i] % 500 == 0,
        parsed > 500 ==> progress_marks_spec(parsed)[0] == 500,
{
    let m = progress_marks_spec(parsed);
    let k = block_marks(parsed);
    assert(m.len() == k + 1);
    assert forall|i: int| 0 <= i < k implies m[i] == 500 * (i + 1) && m[i] < parsed by {
        assert(m[i] == (500 * (i + 1)) as nat);
        assert(i + 1 <= k);
        assert(500 * (i + 1) <= 500 * k);
        assert(500 * k <= parsed - 1) by {
            assert(k == ((parsed - 1) as nat) / 500);
        }
    }
    assert forall|i: int| 0 <= i < m.len() - 1 implies #[trigger] m[i] % 500 == 0 by {
        assert(m[i] == 500 * (i + 1));
        assert((500 * (i + 1)) % 500 == 0) by (nonlinear_arith);
    }
    assert forall|i: int, j: int| 0 <= i < j < m.len() implies #[trigger] m[i] < #[trigger] m[j] by {
        if j < k {
            assert(m[i] == 500 * (i + 1));
            assert(m[j] == 500 * (j + 1));
        }
    }
}

/// Mesmo filme em duas listas é um item só: entradas com o mesmo tipo,
/// título normalizado e ano gravam o mesmo id de título (e, sendo o mesmo
/// episódio, o mesmo id de episódio), seja qual for a URL.
pub proof fn law_dedup_rows(e1: EntryView, r1: EntryRows, e2: EntryView, r2: EntryRows)
    requires
        rows_ok(e1, r1),
        rows_ok(e2, r2),
        e1.kind == e2.kind,
        e1.title_norm == e2.title_norm,
        e1.year == e2.year,
    ensures
        r1.item.id@ == r2.item.id@,
        e1.season == e2.season && e1.episode == e2.episode ==> r1.stream.owner_id@ == r2.stream.owner_id@,
{
    crate::m3u::law_same_title_same_ids(e1, e2);
}

/// Duas linhas do mesmo título (mesmo tipo, título normalizado e ano) contam
/// uma vez só: a segunda não muda o que o relatório conta, seja qual for a URL
/// ou o episódio dela.
pub proof fn law_tally_counts_titles(v: TallyView, e1: EntryView, e2: EntryView)
    requires
        e1.kind == e2.kind,
        e1.title_norm == e2.title_norm,
        e1.year == e2.year,
    ensures
        v.record(e1.kind, entry_item_id(e1)).record(e2.kind, entry_item_id(e2)) == v.record(
            e1.kind,
            entry_item_id(e1),
        ),
{
    let once = v.record(e1.kind, entry_item_id(e1));
    match e1.kind {
        EntryKind::Movie => assert(once.movies.insert(entry_item_id(e2)) =~= once.movies),
        EntryKind::Series => assert(once.series.insert(entry_item_id(e2)) =~= once.series),
        EntryKind::Channel => assert(once.channels.insert(entry_item_id(e2)) =~= once.channels),
    }
}

/// Um título ainda não contado soma um ao seu tipo e nada aos outros.
pub proof fn law_tally_new_title(v: TallyView, kind: EntryKind, id: Seq<char>)
    requires
        v.movies.finite(),
        v.series.finite(),
        v.channels.finite(),
    ensures
        ({
            let after = v.record(kind, id);
            &&& after.movies.len() == v.movies.len() + if kind == EntryKind::Movie && !v.movies.contains(id) { 1int } else { 0 }
            &&& after.series.len() == v.series.len() + if kind == EntryKind::Series && !v.series.contains(id) { 1int } else { 0 }
            &&& after.channels.len() == v.channels.len() + if kind == EntryKind::Channel && !v.channels.contains(id) { 1int } else { 0 }
        }),
{
    match kind {
        EntryKind::Movie => if v.movies.contains(id) { assert(v.movies.insert(id) =~= v.movies); },
        EntryKind::Series => if v.series.contains(id) { assert(v.series.insert(id) =~= v.series); },
        EntryKind::Channel => if v.channels.contains(id) { assert(v.channels.insert(id) =~= v.channels); },
    }
}

} // verus!
