//! Sinopse, nota e elenco vindos do TMDB: as partes que não falam com a rede.
//!
//! A chave do cache segue a normalização do catálogo, o título vai limpo para a
//! busca, e a ficha (textos, imagens, ano, duração, gêneros, elenco, link do
//! IMDb) sai dos campos da resposta de detalhes.

use vstd::prelude::*;

use crate::ids::{digest_spec, item_key, item_id, normalize, normalize_spec};
use crate::m3u::opt_text;
use crate::text::{
    all_digits, chars_of, eq_lit, int_text, join, join_space, lemma_deep_view_chars, lower, parse_i64,
    parse_i64_chars, push_chars, push_i64_text, push_lit, slice_chars, string_of, to_lowercase, words,
    words_of, starts_with_lit, is_white, lemma_words_push,
};

verus! {

#[derive(Clone, Debug)]
pub struct CastMember {
    pub name: String,
    pub character: String,
    pub photo: Option<String>,
}

/// Chave do cache: mesma normalização do catálogo, para que "Duna 4K" e "duna"
/// compartilhem a mesma ficha.
pub fn cache_id(kind: &str, title: &str, year: Option<i64>) -> (r: String)
    ensures
        r@ == digest_spec(item_key(kind@, normalize_spec(title@), year)),
{
    let norm = normalize(title);
    item_id(kind, norm.as_str(), year)
}

/// Tipo de título no TMDB: série é `tv`, o resto é `movie`.
pub fn tmdb_kind(kind: &str) -> (r: &'static str)
    ensures
        r@ == (if kind@ == "series"@ { "tv"@ } else { "movie"@ }),
{
    let v = chars_of(kind);
    if eq_lit(v.as_slice(), "series") {
        "tv"
    } else {
        "movie"
    }
}

/// Nome do parâmetro de ano na busca do TMDB: filme filtra por `year`,
/// série pelo ano da primeira exibição.
pub fn year_param(tmdb_kind: &str) -> (r: &'static str)
    ensures
        r@ == (if tmdb_kind@ == "movie"@ { "year"@ } else { "first_air_date_year"@ }),
{
    let v = chars_of(tmdb_kind);
    if eq_lit(v.as_slice(), "movie") {
        "year"
    } else {
        "first_air_date_year"
    }
}

pub open spec fn image_base() -> Seq<char> {
    "https://image.tmdb.org/t/p"@
}

/// URL de imagem do TMDB para um caminho não vazio.
pub open spec fn image_spec(path: Option<Seq<char>>, size: Seq<char>) -> Option<Seq<char>> {
    match path {
        Some(p) => if p.len() > 0 {
            Some(image_base() + seq!['/'] + size + p)
        } else {
            None
        },
        None => None,
    }
}

pub fn image(path: Option<&str>, size: &str) -> (r: Option<String>)
    ensures
        match r {
            Some(u) => image_spec(match path { Some(p) => Some(p@), None => None }, size@) == Some(u@),
            None => image_spec(match path { Some(p) => Some(p@), None => None }, size@) == None::<Seq<char>>,
        },
{
    let p = match path {
        Some(p) => p,
        None => return None,
    };
    if p.unicode_len() == 0 {
        return None;
    }
    let mut out: Vec<char> = Vec::new();
    push_lit(&mut out, "https://image.tmdb.org/t/p");
    out.push('/');
    push_lit(&mut out, size);
    push_lit(&mut out, p);
    Some(string_of(out.as_slice()))
}

/// Texto fora de `[]` e `()` (chaves não contam aqui).
pub open spec fn unparen_state(s: Seq<char>) -> (Seq<char>, nat)
    decreases s.len(),
{
    if s.len() == 0 {
        (seq![], 0)
    } else {
        let (out, depth) = unparen_state(s.drop_last());
        let c = s.last();
        if c == '[' || c == '(' {
            (out, depth + 1)
        } else if c == ']' || c == ')' {
            (out, if depth > 0 { (depth - 1) as nat } else { 0 })
        } else if depth == 0 {
            (out.push(c), depth)
        } else {
            (out, depth)
        }
    }
}

pub open spec fn is_title_noise(lowered: Seq<char>) -> bool {
    ||| lowered == "4k"@ ||| lowered == "hd"@ ||| lowered == "fhd"@ ||| lowered == "sd"@
    ||| lowered == "dublado"@ ||| lowered == "legendado"@ ||| lowered == "nacional"@
}

pub open spec fn keep_title_words(ws: Seq<Seq<char>>) -> Seq<Seq<char>>
    decreases ws.len(),
{
    if ws.len() == 0 {
        seq![]
    } else if is_title_noise(lower(ws.last())) {
        keep_title_words(ws.drop_last())
    } else {
        keep_title_words(ws.drop_last()).push(ws.last())
    }
}

pub open spec fn is_paren(c: char) -> bool {
    c == '[' || c == '(' || c == ']' || c == ')'
}

proof fn lemma_unparen_append(t: Seq<char>, x: Seq<char>)
    requires
        forall|i: int| 0 <= i < x.len() ==> !is_paren(#[trigger] x[i]),
    ensures
        unparen_state(t + x) == (if unparen_state(t).1 == 0 {
            unparen_state(t).0 + x
        } else {
            unparen_state(t).0
        }, unparen_state(t).1),
    decreases x.len(),
{
    if x.len() == 0 {
        assert(t + x =~= t);
        assert(unparen_state(t).0 + x =~= unparen_state(t).0);
    } else {
        let p = x.drop_last();
        assert forall|i: int| 0 <= i < p.len() implies !is_paren(#[trigger] p[i]) by {
            assert(p[i] == x[i]);
        }
        lemma_unparen_append(t, p);
        assert((t + x).drop_last() =~= t + p);
        assert((t + x).last() == x.last());
        assert(!is_paren(x[x.len() - 1]));
        assert((unparen_state(t).0 + p).push(x.last()) =~= unparen_state(t).0 + x);
    }
}

/// A consulta mandada ao TMDB não leva marca de áudio nem de qualidade: uma
/// palavra no fim que, em caixa baixa, é "legendado", "dublado", "nacional",
/// "4k", "hd", "fhd" ou "sd" — em qualquer caixa — deixa o título limpo igual ao
/// título sem ela.
pub proof fn law_search_drops_marks(title: Seq<char>, mark: Seq<char>)
    requires
        mark.len() > 0,
        forall|i: int| 0 <= i < mark.len() ==> !is_white(#[trigger] mark[i]) && !is_paren(mark[i]),
        lower(mark) == "legendado"@ || lower(mark) == "dublado"@ || lower(mark) == "nacional"@
            || lower(mark) == "4k"@ || lower(mark) == "hd"@ || lower(mark) == "fhd"@ || lower(mark) == "sd"@,
    ensures
        clean_title_spec(title + seq![' '] + mark) == clean_title_spec(title),
{
    let x = seq![' '] + mark;
    assert(title + seq![' '] + mark =~= title + x);
    assert forall|i: int| 0 <= i < x.len() implies !is_paren(#[trigger] x[i]) by {
        if i > 0 {
            assert(x[i] == mark[i - 1]);
        }
    }
    lemma_unparen_append(title, x);
    let (o, d) = unparen_state(title);
    if d == 0 {
        assert(unparen_state(title + x).0 == o + x);
        assert(o + x =~= o + seq![' '] + mark);
        lemma_words_push(o, mark);
        let ws = words(o);
        assert(ws.push(mark).drop_last() =~= ws);
        assert(ws.push(mark).last() == mark);
        assert(is_title_noise(lower(mark)));
        assert(keep_title_words(ws.push(mark)) == keep_title_words(ws));
    }
}

/// Título para a busca no TMDB: sem "[L]", "[XXX]", "(2019)" e marcas de
/// qualidade ou de áudio.
pub open spec fn clean_title_spec(title: Seq<char>) -> Seq<char> {
    join(keep_title_words(words(unparen_state(title).0)), seq![' '])
}

pub fn clean_title(title: &str) -> (r: String)
    ensures
        r@ == clean_title_spec(title@),
{
    let v = chars_of(title);
    let n = v.len();
    let mut cleaned: Vec<char> = Vec::new();
    let mut depth: usize = 0;
    let mut i: usize = 0;
    while i < n
        invariant
            i <= n == v@.len(),
            depth <= i,
            (cleaned@, depth as nat) == unparen_state(v@.take(i as int)),
        decreases n - i,
    {
        let c = v[i];
        assert(v@.take(i + 1).drop_last() =~= v@.take(i as int));
        if c == '[' || c == '(' {
            depth += 1;
        } else if c == ']' || c == ')' {
            depth = if depth > 0 { depth - 1 } else { 0 };
        } else if depth == 0 {
            cleaned.push(c);
        }
        i += 1;
    }
    assert(v@.take(n as int) =~= v@);
    let ws = words_of(cleaned.as_slice());
    let ghost wv = ws.deep_view();
    let mut kept: Vec<Vec<char>> = Vec::new();
    let mut k: usize = 0;
    while k < ws.len()
        invariant
            k <= ws@.len(),
            wv == ws.deep_view(),
            kept.deep_view() == keep_title_words(wv.take(k as int)),
        decreases ws@.len() - k,
    {
        assert(wv.take(k + 1).drop_last() =~= wv.take(k as int));
        assert(wv[k as int] == ws@[k as int]@);
        let word = string_of(ws[k].as_slice());
        let lowered = to_lowercase(word.as_str());
        let lc = chars_of(lowered.as_str());
        let noise = eq_lit(lc.as_slice(), "4k") || eq_lit(lc.as_slice(), "hd")
            || eq_lit(lc.as_slice(), "fhd") || eq_lit(lc.as_slice(), "sd")
            || eq_lit(lc.as_slice(), "dublado") || eq_lit(lc.as_slice(), "legendado")
            || eq_lit(lc.as_slice(), "nacional");
        if !noise {
            let ghost before = kept.deep_view();
            let t = slice_chars(ws[k].as_slice(), 0, ws[k].len());
            assert(t@ =~= ws@[k as int]@);
            proof { lemma_deep_view_chars(&t); }
            kept.push(t);
            assert(kept.deep_view() =~= before.push(wv[k as int]));
        }
        k += 1;
    }
    assert(wv.take(ws@.len() as int) =~= wv);
    let joined = join_space(&kept);
    string_of(joined.as_slice())
}

/// Um token v4 é um JWT e vai no cabeçalho; uma chave v3 vai na query.
pub fn key_goes_in_header(key: &str) -> (b: bool)
    ensures
        b == (2 <= key@.len() && key@.take(2) == "ey"@),
{
    let v = chars_of(key);
    proof { reveal_strlit("ey"); }
    starts_with_lit(v.as_slice(), "ey")
}

pub open spec fn is_ascii_char(c: char) -> bool {
    (c as u32) < 128
}

/// Ano dos quatro primeiros caracteres de uma data "AAAA-MM-DD". Fatia de
/// quatro bytes: fora do ASCII ela já não é um número.
pub open spec fn release_year_spec(date: Seq<char>) -> Option<i64> {
    if date.len() >= 4 && (forall|i: int| 0 <= i < 4 ==> is_ascii_char(#[trigger] date[i])) {
        parse_i64(date.take(4))
    } else {
        None
    }
}

pub fn release_year(date: &str) -> (r: Option<i64>)
    ensures
        r == release_year_spec(date@),
{
    let v = chars_of(date);
    if v.len() < 4 {
        return None;
    }
    let mut i: usize = 0;
    while i < 4
        invariant
            i <= 4 <= v@.len(),
            v@ == date@,
            forall|k: int| 0 <= k < i ==> is_ascii_char(#[trigger] v@[k]),
        decreases 4 - i,
    {
        if !((v[i] as u32) < 128) {
            assert(!is_ascii_char(date@[i as int]));
            return None;
        }
        i += 1;
    }
    assert(v@.subrange(0, 4) =~= v@.take(4));
    parse_i64_chars(v.as_slice(), 0, 4)
}

pub open spec fn imdb_url_spec(id: Seq<char>) -> Seq<char> {
    "https://www.imdb.com/title/"@ + id + seq!['/']
}

pub fn imdb_url(id: &str) -> (r: String)
    ensures
        r@ == imdb_url_spec(id@),
{
    let mut out: Vec<char> = Vec::new();
    push_lit(&mut out, "https://www.imdb.com/title/");
    push_lit(&mut out, id);
    out.push('/');
    string_of(out.as_slice())
}

// ---------------------------------------------------------------- busca e ficha

/// Caminho da busca por título no TMDB.
pub fn search_path(tmdb_kind: &str) -> (r: String)
    ensures
        r@ == "/search/"@ + tmdb_kind@,
{
    let mut out: Vec<char> = Vec::new();
    push_lit(&mut out, "/search/");
    push_lit(&mut out, tmdb_kind);
    string_of(out.as_slice())
}

/// Caminho dos detalhes de um título achado na busca.
pub fn details_path(tmdb_kind: &str, id: i64) -> (r: String)
    ensures
        r@ == seq!['/'] + tmdb_kind@ + seq!['/'] + int_text(id as int),
{
    let mut out: Vec<char> = Vec::new();
    out.push('/');
    push_lit(&mut out, tmdb_kind);
    out.push('/');
    push_i64_text(&mut out, id);
    string_of(out.as_slice())
}

/// A chave para falar com o TMDB. Sem chave não há busca: a ficha sai vazia
/// com este motivo, e o app segue funcionando, só sem sinopse.
pub fn require_key(key: Option<String>) -> (r: Result<String, String>)
    ensures
        r is Ok <==> key is Some,
        r matches Ok(k) ==> key matches Some(x) && k@ == x@,
        r matches Err(m) ==> m@ == "chave do TMDB não configurada"@,
{
    match key {
        Some(k) => Ok(k),
        None => Err(String::from_str("chave do TMDB não configurada")),
    }
}

/// O título a detalhar: o id do primeiro resultado da busca (zero quando o
/// resultado não traz um id numérico); `None` quando a busca não achou nada,
/// e então a ficha sai vazia, sem motivo.
pub fn first_hit(hit: Option<Option<i64>>) -> (r: Option<i64>)
    ensures
        r == match hit {
            Some(id) => Some(
                match id {
                    Some(n) => n,
                    None => 0,
                },
            ),
            None => None::<i64>,
        },
{
    match hit {
        Some(Some(n)) => Some(n),
        Some(None) => Some(0),
        None => None,
    }
}

/// Parâmetros da busca: o título limpo, conteúdo adulto incluído e, quando há
/// ano, o filtro de ano do tipo.
pub open spec fn search_params_spec(title: Seq<char>, tmdb_kind: Seq<char>, year: Option<i64>) -> Seq<(Seq<char>, Seq<char>)> {
    let base = seq![("query"@, clean_title_spec(title)), ("include_adult"@, "true"@)];
    match year {
        Some(y) => base.push(
            (if tmdb_kind == "movie"@ { "year"@ } else { "first_air_date_year"@ }, int_text(y as int)),
        ),
        None => base,
    }
}

pub open spec fn pairs_view(v: Seq<(String, String)>) -> Seq<(Seq<char>, Seq<char>)> {
    Seq::new(v.len(), |i: int| (v[i].0@, v[i].1@))
}

pub fn search_params(title: &str, tmdb_kind: &str, year: Option<i64>) -> (r: Vec<(String, String)>)
    ensures
        pairs_view(r@) == search_params_spec(title@, tmdb_kind@, year),
{
    let mut r: Vec<(String, String)> = Vec::new();
    r.push((String::from_str("query"), clean_title(title)));
    r.push((String::from_str("include_adult"), String::from_str("true")));
    if let Some(y) = year {
        let mut text: Vec<char> = Vec::new();
        push_i64_text(&mut text, y);
        r.push((String::from_str(year_param(tmdb_kind)), string_of(text.as_slice())));
    }
    proof {
        reveal_strlit("query");
        reveal_strlit("include_adult");
        reveal_strlit("true");
    }
    assert(pairs_view(r@) =~= search_params_spec(title@, tmdb_kind@, year));
    r
}

/// Um integrante do elenco como a resposta traz: `None` onde o campo falta
/// ou não é texto.
pub struct CastEntry {
    pub name: Option<String>,
    pub character: Option<String>,
    pub profile_path: Option<String>,
}

/// Os campos da resposta de detalhes do TMDB que a ficha lê, já como valores
/// simples: `None` onde o campo falta ou não tem o tipo esperado; `genres` e
/// `cast` são `None` quando não são listas.
pub struct Details {
    pub overview: Option<String>,
    pub tagline: Option<String>,
    pub poster_path: Option<String>,
    pub backdrop_path: Option<String>,
    pub vote_count: Option<i64>,
    pub release_date: Option<String>,
    pub first_air_date: Option<String>,
    pub imdb_id: Option<String>,
    pub external_imdb_id: Option<String>,
    pub runtime: Option<i64>,
    pub first_episode_run_time: Option<i64>,
    pub genres: Option<Vec<Option<String>>>,
    pub cast: Option<Vec<CastEntry>>,
}

/// A ficha de um título, fora a nota.
pub struct Sheet {
    pub overview: String,
    pub tagline: String,
    pub poster: Option<String>,
    pub backdrop: Option<String>,
    pub votes: Option<i64>,
    pub year: Option<i64>,
    pub runtime: Option<i64>,
    pub genres: Vec<String>,
    pub cast: Vec<CastMember>,
    pub imdb_url: Option<String>,
}

/// Elenco mostrado na ficha.
pub const CAST_LIMIT: usize = 12;

pub open spec fn text_or_empty(o: Option<Seq<char>>) -> Seq<char> {
    match o {
        Some(t) => t,
        None => seq![],
    }
}

/// Data de lançamento do filme ou, sem ela, da primeira exibição da série.
pub open spec fn sheet_date(d: Details) -> Seq<char> {
    match d.release_date {
        Some(t) => t@,
        None => text_or_empty(opt_text(d.first_air_date)),
    }
}

/// Id do IMDb no topo da resposta ou em `external_ids`; vazio é ausente.
pub open spec fn sheet_imdb_id(d: Details) -> Option<Seq<char>> {
    let id = match d.imdb_id {
        Some(t) => Some(t@),
        None => opt_text(d.external_imdb_id),
    };
    match id {
        Some(t) => if t.len() > 0 { Some(t) } else { None },
        None => None,
    }
}

/// Nomes dos gêneros que são texto, na ordem.
pub open spec fn genre_names(gs: Seq<Option<String>>) -> Seq<Seq<char>>
    decreases gs.len(),
{
    if gs.len() == 0 {
        seq![]
    } else {
        let rest = genre_names(gs.drop_last());
        match gs.last() {
            Some(g) => rest.push(g@),
            None => rest,
        }
    }
}

pub open spec fn sheet_genres(d: Details) -> Seq<Seq<char>> {
    match d.genres {
        Some(gs) => genre_names(gs@),
        None => seq![],
    }
}

pub open spec fn sheet_cast_len(d: Details) -> int {
    match d.cast {
        Some(c) => if c@.len() < 12 { c@.len() as int } else { 12 },
        None => 0,
    }
}

/// O `i`-ésimo integrante da ficha sai do `i`-ésimo da resposta.
pub open spec fn cast_member_ok(e: CastEntry, m: CastMember) -> bool {
    &&& m.name@ == text_or_empty(opt_text(e.name))
    &&& m.character@ == text_or_empty(opt_text(e.character))
    &&& opt_text(m.photo) == image_spec(opt_text(e.profile_path), "w185"@)
}

fn text_of(o: &Option<String>) -> (r: String)
    ensures
        r@ == text_or_empty(opt_text(*o)),
{
    match o {
        Some(t) => t.clone(),
        None => String::new(),
    }
}

fn image_of(path: &Option<String>, size: &str) -> (r: Option<String>)
    ensures
        opt_text(r) == image_spec(opt_text(*path), size@),
{
    match path {
        Some(p) => image(Some(p.as_str()), size),
        None => None,
    }
}

/// A ficha que a resposta de detalhes dá.
pub fn sheet(d: &Details) -> (r: Sheet)
    ensures
        r.overview@ == text_or_empty(opt_text(d.overview)),
        r.tagline@ == text_or_empty(opt_text(d.tagline)),
        opt_text(r.poster) == image_spec(opt_text(d.poster_path), "w500"@),
        opt_text(r.backdrop) == image_spec(opt_text(d.backdrop_path), "w1280"@),
        r.votes == d.vote_count,
        r.year == release_year_spec(sheet_date(*d)),
        r.runtime == (if d.runtime is Some { d.runtime } else { d.first_episode_run_time }),
        r.genres.deep_view() == sheet_genres(*d),
        r.cast@.len() == sheet_cast_len(*d),
        forall|i: int| 0 <= i < r.cast@.len() ==> cast_member_ok(#[trigger] d.cast->0@[i], r.cast@[i]),
        opt_text(r.imdb_url) == match sheet_imdb_id(*d) {
            Some(id) => Some(imdb_url_spec(id)),
            None => None::<Seq<char>>,
        },
{
    proof {
        reveal_strlit("w500");
        reveal_strlit("w1280");
        reveal_strlit("w185");
    }
    let date = match &d.release_date {
        Some(t) => t.clone(),
        None => text_of(&d.first_air_date),
    };
    let imdb_id = match &d.imdb_id {
        Some(t) => Some(t.clone()),
        None => match &d.external_imdb_id {
            Some(t) => Some(t.clone()),
            None => None,
        },
    };
    let imdb = match imdb_id {
        Some(id) => if id.unicode_len() > 0 {
            Some(imdb_url(id.as_str()))
        } else {
            None
        },
        None => None,
    };
    let mut genres: Vec<String> = Vec::new();
    if let Some(gs) = &d.genres {
        let mut i: usize = 0;
        while i < gs.len()
            invariant
                i <= gs@.len(),
                genres.deep_view() == genre_names(gs@.take(i as int)),
            decreases gs@.len() - i,
        {
            assert(gs@.take(i + 1).drop_last() =~= gs@.take(i as int));
            if let Some(g) = &gs[i] {
                let ghost before = genres.deep_view();
                genres.push(g.clone());
                assert(genres.deep_view() =~= before.push(g@));
            }
            i += 1;
        }
        assert(gs@.take(gs@.len() as int) =~= gs@);
    }
    let mut cast: Vec<CastMember> = Vec::new();
    if let Some(c) = &d.cast {
        let n = if c.len() < CAST_LIMIT { c.len() } else { CAST_LIMIT };
        let mut i: usize = 0;
        while i < n
            invariant
                i <= n <= c@.len(),
                n == (if c@.len() < 12 { c@.len() } else { 12 }),
                cast@.len() == i,
                forall|k: int| 0 <= k < i ==> cast_member_ok(#[trigger] c@[k], cast@[k]),
            decreases n - i,
        {
            let e = &c[i];
            let member = CastMember {
                name: text_of(&e.name),
                character: text_of(&e.character),
                photo: image_of(&e.profile_path, "w185"),
            };
            cast.push(member);
            i += 1;
        }
    }
    Sheet {
        overview: text_of(&d.overview),
        tagline: text_of(&d.tagline),
        poster: image_of(&d.poster_path, "w500"),
        backdrop: image_of(&d.backdrop_path, "w1280"),
        votes: d.vote_count,
        year: release_year(date.as_str()),
        runtime: match d.runtime {
            Some(r) => Some(r),
            None => d.first_episode_run_time,
        },
        genres,
        cast,
        imdb_url: imdb,
    }
}

} // verus!
