//! Regras do catálogo que não dependem do banco: tipos de aba, tamanho de
//! página, a busca FTS e o filtro da página, e a ordem de uma lista de ids.
//!
//! Paginação, contagem de grupos e busca acontecem no SQLite; o que fica aqui
//! é o que monta essas consultas e o que arruma o resultado delas.

use vstd::prelude::*;

use crate::ids::{normalize, normalize_spec};
use crate::text::{
    chars_of, eq_lit, join, lemma_deep_view_chars, push_chars, push_i64_text, push_lit,
    string_of, words, words_of, int_text,
};

verus! {

pub const PAGE_SIZE: i64 = 60;

/// Canais são consumidos como lista única (a barra lateral do player precisa de
/// todos), e cada página repetia o `GROUP BY group_name` inteiro. Uma página só
/// cobre qualquer lista real e o agregado roda uma vez.
pub const CHANNEL_PAGE_SIZE: i64 = 10000;

#[derive(Clone, Copy, Debug, PartialEq, Eq, Structural)]
pub enum Kind {
    Movie,
    Series,
    Channel,
}

pub open spec fn kind_name(kind: Kind) -> Seq<char> {
    match kind {
        Kind::Movie => "movie"@,
        Kind::Series => "series"@,
        Kind::Channel => "channel"@,
    }
}

/// Nomes aceitos para cada aba: o da rota e o do banco.
pub open spec fn parse_kind(value: Seq<char>) -> Option<Kind> {
    if value == "filmes"@ || value == "movie"@ {
        Some(Kind::Movie)
    } else if value == "series"@ {
        Some(Kind::Series)
    } else if value == "canais"@ || value == "channel"@ {
        Some(Kind::Channel)
    } else {
        None
    }
}

impl Kind {
    pub fn parse(value: &str) -> (r: Result<Kind, String>)
        ensures
            match parse_kind(value@) {
                Some(k) => r == Ok::<Kind, String>(k),
                None => r is Err && r->Err_0@ == "tipo de catálogo inválido: "@ + value@,
            },
    {
        let v = chars_of(value);
        if eq_lit(v.as_slice(), "filmes") || eq_lit(v.as_slice(), "movie") {
            Ok(Kind::Movie)
        } else if eq_lit(v.as_slice(), "series") {
            Ok(Kind::Series)
        } else if eq_lit(v.as_slice(), "canais") || eq_lit(v.as_slice(), "channel") {
            Ok(Kind::Channel)
        } else {
            let mut message: Vec<char> = Vec::new();
            push_lit(&mut message, "tipo de catálogo inválido: ");
            push_chars(&mut message, v.as_slice());
            Err(string_of(message.as_slice()))
        }
    }

    pub fn as_str(self) -> (r: &'static str)
        ensures
            r@ == kind_name(self),
    {
        match self {
            Kind::Movie => "movie",
            Kind::Series => "series",
            Kind::Channel => "channel",
        }
    }
}

pub open spec fn page_size_spec(kind: Kind) -> i64 {
    match kind {
        Kind::Channel => CHANNEL_PAGE_SIZE,
        _ => PAGE_SIZE,
    }
}

/// Tamanho de página por tipo: ver `CHANNEL_PAGE_SIZE`.
pub fn page_size(kind: Kind) -> (r: i64)
    ensures
        r == page_size_spec(kind),
{
    match kind {
        Kind::Channel => CHANNEL_PAGE_SIZE,
        _ => PAGE_SIZE,
    }
}

#[derive(Clone, Debug)]
pub struct GroupCount {
    pub name: String,
    pub count: i64,
}

#[derive(Clone, Debug)]
pub struct StreamRef {
    pub id: i64,
    pub url: String,
    pub quality: Option<String>,
    pub source_label: String,
    pub channel_number: Option<i64>,
}

// ---------------------------------------------------------------- busca

/// Um termo como prefixo entre aspas: `"termo"*`.
pub open spec fn fts_term(t: Seq<char>) -> Seq<char> {
    seq!['"'] + t + seq!['"', '*']
}

pub open spec fn fts_terms(ts: Seq<Seq<char>>) -> Seq<Seq<char>> {
    Seq::new(ts.len(), |i: int| fts_term(ts[i]))
}

/// Termos do usuário viram prefixos entre aspas, unidos por `AND` — o único
/// formato de MATCH que não deixa o usuário escrever sintaxe FTS por acidente.
pub open spec fn fts_query_spec(query: Seq<char>) -> Option<Seq<char>> {
    let ts = words(normalize_spec(query));
    if ts.len() == 0 {
        None
    } else {
        Some(join(fts_terms(ts), " AND "@))
    }
}

pub fn fts_query(query: &str) -> (r: Option<String>)
    ensures
        match r {
            Some(q) => fts_query_spec(query@) == Some(q@),
            None => fts_query_spec(query@) == None::<Seq<char>>,
        },
{
    let normalized = normalize(query);
    let chars = chars_of(normalized.as_str());
    let terms = words_of(chars.as_slice());
    if terms.len() == 0 {
        return None;
    }
    let ghost ts = terms.deep_view();
    let mut quoted: Vec<Vec<char>> = Vec::new();
    let mut i: usize = 0;
    while i < terms.len()
        invariant
            i <= terms@.len(),
            ts == terms.deep_view(),
            quoted.deep_view() == fts_terms(ts).take(i as int),
        decreases terms@.len() - i,
    {
        assert(ts[i as int] == terms@[i as int]@);
        let mut term: Vec<char> = Vec::new();
        term.push('"');
        push_chars(&mut term, terms[i].as_slice());
        term.push('"');
        term.push('*');
        assert(term@ =~= fts_term(ts[i as int]));
        let ghost before = quoted.deep_view();
        proof { lemma_deep_view_chars(&term); }
        quoted.push(term);
        assert(quoted.deep_view() =~= before.push(fts_term(ts[i as int])));
        assert(fts_terms(ts).take(i + 1) =~= fts_terms(ts).take(i as int).push(fts_term(ts[i as int])));
        i += 1;
    }
    assert(fts_terms(ts).take(terms@.len() as int) =~= fts_terms(ts));
    let mut sep: Vec<char> = Vec::new();
    push_lit(&mut sep, " AND ");
    assert(sep@ =~= " AND "@);
    let joined = crate::text::join_chars(&quoted, sep.as_slice());
    Some(string_of(joined.as_slice()))
}

// ---------------------------------------------------------------- página

/// Filtro de uma página do catálogo: cláusulas `WHERE` (unidas por `AND`), os
/// valores dos `?` na ordem, e a janela `LIMIT`/`OFFSET`.
pub struct PageFilter {
    pub where_clause: String,
    pub binds: Vec<String>,
    pub page: i64,
    pub limit: i64,
    pub offset: i64,
}

pub open spec fn page_clauses(has_group: bool, has_query: bool, unwatched_only: bool) -> Seq<Seq<char>> {
    let c = seq!["i.kind = ?"@];
    let c = if has_group { c.push("i.group_name = ?"@) } else { c };
    let c = if has_query {
        c.push("i.rowid IN (SELECT rowid FROM items_fts WHERE items_fts MATCH ?)"@)
    } else {
        c
    };
    if unwatched_only { c.push("COALESCE(p.completed, 0) = 0"@) } else { c }
}

/// O grupo só filtra quando não é vazio; a busca só quando sobra algum termo.
pub open spec fn page_binds(kind: Kind, group: Option<Seq<char>>, query: Seq<char>) -> Seq<Seq<char>> {
    let b = seq![kind_name(kind)];
    let b = match group {
        Some(g) => if g.len() > 0 { b.push(g) } else { b },
        None => b,
    };
    match fts_query_spec(query) {
        Some(q) => b.push(q),
        None => b,
    }
}

pub open spec fn group_filters(group: Option<Seq<char>>) -> bool {
    group matches Some(g) && g.len() > 0
}

pub open spec fn clamp_page(page: i64) -> i64 {
    if page < 0 { 0 } else { page }
}

pub fn page_filter(kind: Kind, query: &str, group: Option<&str>, page: i64, unwatched_only: bool) -> (r: PageFilter)
    requires
        clamp_page(page) * page_size_spec(kind) <= i64::MAX,
    ensures
        r.where_clause@ == join(page_clauses(
            group_filters(match group { Some(g) => Some(g@), None => None }),
            fts_query_spec(query@) is Some,
            unwatched_only,
        ), " AND "@),
        r.binds.deep_view() == page_binds(kind, match group { Some(g) => Some(g@), None => None }, query@),
        r.page == clamp_page(page),
        r.limit == page_size_spec(kind),
        r.offset == clamp_page(page) * page_size_spec(kind),
{
    let page = if page < 0 { 0 } else { page };
    let size = page_size(kind);
    let mut clauses: Vec<Vec<char>> = Vec::new();
    let mut binds: Vec<String> = Vec::new();
    let mut c: Vec<char> = Vec::new();
    push_lit(&mut c, "i.kind = ?");
    proof { lemma_deep_view_chars(&c); }
    clauses.push(c);
    binds.push(String::from_str(kind.as_str()));
    let ghost has_group = group_filters(match group { Some(g) => Some(g@), None => None });
    match group {
        Some(g) => {
            if g.unicode_len() > 0 {
                let mut c: Vec<char> = Vec::new();
                push_lit(&mut c, "i.group_name = ?");
                proof { lemma_deep_view_chars(&c); }
                clauses.push(c);
                binds.push(String::from_str(g));
            }
        },
        None => {},
    }
    let fts = fts_query(query);
    match fts {
        Some(expression) => {
            let mut c: Vec<char> = Vec::new();
            push_lit(&mut c, "i.rowid IN (SELECT rowid FROM items_fts WHERE items_fts MATCH ?)");
            proof { lemma_deep_view_chars(&c); }
            clauses.push(c);
            binds.push(expression);
        },
        None => {},
    }
    if unwatched_only {
        let mut c: Vec<char> = Vec::new();
        push_lit(&mut c, "COALESCE(p.completed, 0) = 0");
        proof { lemma_deep_view_chars(&c); }
        clauses.push(c);
    }
    assert(clauses.deep_view() =~= page_clauses(has_group, fts_query_spec(query@) is Some, unwatched_only));
    assert(binds.deep_view() =~= page_binds(kind, match group { Some(g) => Some(g@), None => None }, query@));
    let mut sep: Vec<char> = Vec::new();
    push_lit(&mut sep, " AND ");
    let joined = crate::text::join_chars(&clauses, sep.as_slice());
    PageFilter {
        where_clause: string_of(joined.as_slice()),
        binds,
        page,
        limit: size,
        offset: page * size,
    }
}

// ---------------------------------------------------------------- ordem

/// Primeiro índice de `id` em `found`.
pub open spec fn first_index(found: Seq<Seq<char>>, id: Seq<char>, from: int) -> Option<int>
    decreases found.len() - from,
{
    if from < 0 || from >= found.len() {
        None
    } else if found[from] == id {
        Some(from)
    } else {
        first_index(found, id, from + 1)
    }
}

pub open spec fn ordered_positions(ids: Seq<Seq<char>>, found: Seq<Seq<char>>) -> Seq<int>
    decreases ids.len(),
{
    if ids.len() == 0 {
        seq![]
    } else {
        let rest = ordered_positions(ids.drop_last(), found);
        match first_index(found, ids.last(), 0) {
            Some(k) => rest.push(k),
            None => rest,
        }
    }
}

/// SQL não garante a ordem do `IN`; a lista de favoritos e o histórico têm
/// ordem própria. Para cada id pedido, na ordem pedida, a posição do primeiro
/// item encontrado com esse id (ids sem item somem).
pub fn order_by_ids(ids: &Vec<String>, found: &Vec<String>) -> (r: Vec<usize>)
    ensures
        r@.len() == ordered_positions(ids.deep_view(), found.deep_view()).len(),
        forall|i: int| 0 <= i < r@.len() ==> r@[i] as int == #[trigger] ordered_positions(ids.deep_view(), found.deep_view())[i],
{
    let ghost is = ids.deep_view();
    let ghost fs = found.deep_view();
    let mut out: Vec<usize> = Vec::new();
    let mut i: usize = 0;
    while i < ids.len()
        invariant
            i <= ids@.len(),
            is == ids.deep_view(),
            fs == found.deep_view(),
            out@.len() == ordered_positions(is.take(i as int), fs).len(),
            forall|k: int| 0 <= k < out@.len() ==> out@[k] as int == #[trigger] ordered_positions(is.take(i as int), fs)[k],
        decreases ids@.len() - i,
    {
        assert(is.take(i + 1).drop_last() =~= is.take(i as int));
        assert(is[i as int] == ids@[i as int]@);
        let n = found.len();
        let mut j: usize = 0;
        while j < n && !(found[j] == ids[i])
            invariant
                j <= n == found@.len(),
                fs == found.deep_view(),
                i < ids@.len(),
                is == ids.deep_view(),
                first_index(fs, is[i as int], 0) == first_index(fs, is[i as int], j as int),
            decreases n - j,
        {
            assert(fs[j as int] == found@[j as int]@);
            assert(is[i as int] == ids@[i as int]@);
            j += 1;
        }
        let hit: Option<usize> = if j < n {
            assert(fs[j as int] == found@[j as int]@);
            Some(j)
        } else {
            None
        };
        let ghost prev = out@;
        match hit {
            Some(k) => {
                assert(first_index(fs, is[i as int], 0) == Some(k as int));
                out.push(k);
            },
            None => {
                assert(first_index(fs, is[i as int], 0) == None::<int>);
            },
        }
        i += 1;
    }
    assert(is.take(ids@.len() as int) =~= is);
    out
}


/// Mensagem de erro de uma consulta ao catálogo.
pub fn stringify(detail: &str) -> (r: String)
    ensures
        r@ == "consulta ao catálogo falhou: "@ + detail@,
{
    let mut out: Vec<char> = Vec::new();
    push_lit(&mut out, "consulta ao catálogo falhou: ");
    let d = chars_of(detail);
    push_chars(&mut out, d.as_slice());
    string_of(out.as_slice())
}

/// Chave de uma linha de gênero no Início: `group:<tipo>:<grupo>`.
pub open spec fn row_key_spec(kind: Kind, group: Seq<char>) -> Seq<char> {
    "group:"@ + kind_name(kind) + seq![':'] + group
}

pub fn row_key(kind: Kind, group: &str) -> (r: String)
    ensures
        r@ == row_key_spec(kind, group@),
{
    let mut out: Vec<char> = Vec::new();
    push_lit(&mut out, "group:");
    push_lit(&mut out, kind.as_str());
    out.push(':');
    let g = chars_of(group);
    push_chars(&mut out, g.as_slice());
    string_of(out.as_slice())
}

/// Posições que ficam depois de `dedup_by` por id: a primeira de cada
/// sequência de ids iguais seguidos.
pub open spec fn dedup_positions_spec(ids: Seq<Seq<char>>) -> Seq<int>
    decreases ids.len(),
{
    if ids.len() == 0 {
        seq![]
    } else {
        let rest = dedup_positions_spec(ids.drop_last());
        let i = ids.len() - 1;
        if i > 0 && ids[i] == ids[i - 1] {
            rest
        } else {
            rest.push(i)
        }
    }
}

pub fn dedup_positions(ids: &Vec<String>) -> (r: Vec<usize>)
    ensures
        r@.len() == dedup_positions_spec(ids.deep_view()).len(),
        forall|k: int| 0 <= k < r@.len() ==> r@[k] as int == #[trigger] dedup_positions_spec(ids.deep_view())[k],
{
    let ghost is = ids.deep_view();
    let mut out: Vec<usize> = Vec::new();
    let mut i: usize = 0;
    while i < ids.len()
        invariant
            i <= ids@.len(),
            is == ids.deep_view(),
            out@.len() == dedup_positions_spec(is.take(i as int)).len(),
            forall|k: int| 0 <= k < out@.len() ==> out@[k] as int == #[trigger] dedup_positions_spec(is.take(i as int))[k],
        decreases ids@.len() - i,
    {
        let ghost t = is.take(i + 1);
        assert(t.drop_last() =~= is.take(i as int));
        assert(t[i as int] == ids@[i as int]@);
        if i > 0 {
            assert(t[i - 1] == ids@[i - 1]@);
        }
        if i > 0 && ids[i] == ids[i - 1] {
        } else {
            out.push(i);
        }
        i += 1;
    }
    assert(is.take(ids@.len() as int) =~= is);
    out
}


// ---------------------------------------------------------------- Início

/// Itens por linha do Início.
pub const ROW_LIMIT: usize = 20;

/// Uma linha do Início, com os ids dos itens na ordem da tela.
pub struct RowPlan {
    pub key: String,
    pub title: String,
    pub kind: String,
    pub items: Vec<String>,
}

pub struct RowPlanView {
    pub key: Seq<char>,
    pub title: Seq<char>,
    pub kind: Seq<char>,
    pub items: Seq<Seq<char>>,
}

impl View for RowPlan {
    type V = RowPlanView;

    open spec fn view(&self) -> RowPlanView {
        RowPlanView { key: self.key@, title: self.title@, kind: self.kind@, items: self.items.deep_view() }
    }
}

pub open spec fn plans_view(v: Seq<RowPlan>) -> Seq<RowPlanView> {
    Seq::new(v.len(), |i: int| v[i]@)
}

pub open spec fn groups_view(g: Seq<(Kind, String, Vec<String>)>) -> Seq<(Kind, Seq<char>, Seq<Seq<char>>)> {
    Seq::new(g.len(), |i: int| (g[i].0, g[i].1@, g[i].2.deep_view()))
}

/// Os ids pedidos que foram achados, na ordem pedida.
pub open spec fn ordered_ids(ids: Seq<Seq<char>>, found: Seq<Seq<char>>) -> Seq<Seq<char>> {
    Seq::new(ordered_positions(ids, found).len(), |i: int| found[ordered_positions(ids, found)[i]])
}

/// Os ids sem repetição seguida.
pub open spec fn dedup_ids(s: Seq<Seq<char>>) -> Seq<Seq<char>> {
    Seq::new(dedup_positions_spec(s).len(), |i: int| s[dedup_positions_spec(s)[i]])
}

/// "Continuar assistindo" vem primeiro, só quando há o que continuar: os
/// títulos achados na ordem do histórico, sem repetição seguida.
pub open spec fn continue_row(cont: Seq<Seq<char>>, found: Seq<Seq<char>>) -> Seq<RowPlanView> {
    if cont.len() > 0 {
        seq![RowPlanView {
            key: "continue"@,
            title: "Continuar assistindo"@,
            kind: "mixed"@,
            items: dedup_ids(ordered_ids(cont, found)),
        }]
    } else {
        seq![]
    }
}

/// Filmes recentes e depois séries recentes, cortados em `ROW_LIMIT`; a linha
/// só aparece quando não fica vazia.
pub open spec fn recent_row(movies: Seq<Seq<char>>, series: Seq<Seq<char>>) -> Seq<RowPlanView> {
    let all = movies + series;
    let items = if all.len() <= 20 { all } else { all.take(20) };
    if items.len() > 0 {
        seq![RowPlanView { key: "recent"@, title: "Adicionados recentemente"@, kind: "mixed"@, items }]
    } else {
        seq![]
    }
}

/// Uma linha por gênero, na ordem dada, pulando os vazios.
pub open spec fn group_rows(groups: Seq<(Kind, Seq<char>, Seq<Seq<char>>)>) -> Seq<RowPlanView>
    decreases groups.len(),
{
    if groups.len() == 0 {
        seq![]
    } else {
        let rest = group_rows(groups.drop_last());
        let (kind, name, items) = groups.last();
        if items.len() > 0 {
            rest.push(RowPlanView { key: row_key_spec(kind, name), title: name, kind: kind_name(kind), items })
        } else {
            rest
        }
    }
}

/// As linhas do Início, na ordem da tela.
pub open spec fn board_spec(
    cont: Seq<Seq<char>>,
    found: Seq<Seq<char>>,
    movies: Seq<Seq<char>>,
    series: Seq<Seq<char>>,
    groups: Seq<(Kind, Seq<char>, Seq<Seq<char>>)>,
) -> Seq<RowPlanView> {
    continue_row(cont, found) + recent_row(movies, series) + group_rows(groups)
}

fn clone_ids(v: &Vec<String>) -> (r: Vec<String>)
    ensures
        r.deep_view() == v.deep_view(),
{
    let mut r: Vec<String> = Vec::new();
    let mut i: usize = 0;
    while i < v.len()
        invariant
            i <= v@.len(),
            r.deep_view() == v.deep_view().take(i as int),
        decreases v@.len() - i,
    {
        let c = v[i].clone();
        assert(v.deep_view()[i as int] == v@[i as int]@);
        let ghost before = r.deep_view();
        r.push(c);
        assert(r.deep_view() =~= before.push(c@));
        i += 1;
        assert(r.deep_view() =~= v.deep_view().take(i as int));
    }
    assert(v.deep_view().take(v@.len() as int) =~= v.deep_view());
    r
}

fn ids_at(v: &Vec<String>, pos: &Vec<usize>) -> (r: Vec<String>)
    requires
        forall|i: int| 0 <= i < pos@.len() ==> pos@[i] < v@.len(),
    ensures
        r.deep_view() == Seq::new(pos@.len(), |i: int| v.deep_view()[pos@[i] as int]),
{
    let mut r: Vec<String> = Vec::new();
    let mut i: usize = 0;
    while i < pos.len()
        invariant
            i <= pos@.len(),
            forall|k: int| 0 <= k < pos@.len() ==> pos@[k] < v@.len(),
            r.deep_view() == Seq::new(i as nat, |k: int| v.deep_view()[pos@[k] as int]),
        decreases pos@.len() - i,
    {
        let c = v[pos[i]].clone();
        assert(v.deep_view()[pos@[i as int] as int] == v@[pos@[i as int] as int]@);
        let ghost before = r.deep_view();
        r.push(c);
        assert(r.deep_view() =~= before.push(c@));
        i += 1;
        assert(r.deep_view() =~= Seq::new(i as nat, |k: int| v.deep_view()[pos@[k] as int]));
    }
    r
}

fn board_row(key: &str, title: &str, kind: &str, items: Vec<String>) -> (r: RowPlan)
    ensures
        r@ == (RowPlanView { key: key@, title: title@, kind: kind@, items: items.deep_view() }),
{
    RowPlan { key: String::from_str(key), title: String::from_str(title), kind: String::from_str(kind), items }
}

fn continue_plan(cont: &Vec<String>, found: &Vec<String>) -> (r: Vec<RowPlan>)
    ensures
        plans_view(r@) == continue_row(cont.deep_view(), found.deep_view()),
{
    let ghost (cv, fv) = (cont.deep_view(), found.deep_view());
    let mut rows: Vec<RowPlan> = Vec::new();
    if cont.len() > 0 {
        let positions = order_by_ids(cont, found);
        proof { law_by_ids_keeps_the_order(cv, fv); }
        assert forall|i: int| 0 <= i < positions@.len() implies positions@[i] < found@.len() by {
            assert(positions@[i] as int == ordered_positions(cv, fv)[i]);
        }
        let ordered = ids_at(found, &positions);
        assert(ordered.deep_view() =~= ordered_ids(cv, fv));
        let kept = dedup_positions(&ordered);
        proof { law_dedup_has_no_neighbors_alike(ordered.deep_view()); }
        assert forall|i: int| 0 <= i < kept@.len() implies kept@[i] < ordered@.len() by {
            assert(kept@[i] as int == dedup_positions_spec(ordered.deep_view())[i]);
        }
        let items = ids_at(&ordered, &kept);
        assert(items.deep_view() =~= dedup_ids(ordered_ids(cv, fv)));
        proof {
            reveal_strlit("continue");
            reveal_strlit("Continuar assistindo");
            reveal_strlit("mixed");
        }
        rows.push(board_row("continue", "Continuar assistindo", "mixed", items));
    }
    assert(plans_view(rows@) =~= continue_row(cv, fv));
    rows
}

fn recent_plan(movies: &Vec<String>, series: &Vec<String>) -> (r: Option<RowPlan>)
    ensures
        match r {
            Some(row) => recent_row(movies.deep_view(), series.deep_view()) == seq![row@],
            None => recent_row(movies.deep_view(), series.deep_view()) == Seq::<RowPlanView>::empty(),
        },
{
    let ghost (mv, sv) = (movies.deep_view(), series.deep_view());
    let mut recent: Vec<String> = clone_ids(movies);
    let mut j: usize = 0;
    while j < series.len()
        invariant
            j <= series@.len(),
            recent.deep_view() == mv + sv.take(j as int),
            sv == series.deep_view(),
        decreases series@.len() - j,
    {
        let c = series[j].clone();
        assert(sv[j as int] == series@[j as int]@);
        let ghost before = recent.deep_view();
        recent.push(c);
        assert(recent.deep_view() =~= before.push(c@));
        j += 1;
        assert(recent.deep_view() =~= mv + sv.take(j as int));
    }
    assert(sv.take(series@.len() as int) =~= sv);
    let ghost all = recent.deep_view();
    if recent.len() > ROW_LIMIT {
        recent.truncate(ROW_LIMIT);
        assert(recent.deep_view() =~= all.take(20));
    }
    if recent.len() > 0 {
        proof {
            reveal_strlit("recent");
            reveal_strlit("Adicionados recentemente");
            reveal_strlit("mixed");
        }
        let row = board_row("recent", "Adicionados recentemente", "mixed", recent);
        Some(row)
    } else {
        None
    }
}

/// Monta as linhas do Início a partir do que as consultas trouxeram: os ids do
/// histórico em andamento (`cont`) e os ids dos itens achados para eles
/// (`found`), os ids dos filmes e das séries mais recentes, e, para cada gênero
/// na ordem da tela, o tipo, o nome e os ids dos seus itens.
pub fn board_rows(
    cont: &Vec<String>,
    found: &Vec<String>,
    movies: &Vec<String>,
    series: &Vec<String>,
    groups: &Vec<(Kind, String, Vec<String>)>,
) -> (rows: Vec<RowPlan>)
    ensures
        plans_view(rows@) == board_spec(
            cont.deep_view(),
            found.deep_view(),
            movies.deep_view(),
            series.deep_view(),
            groups_view(groups@),
        ),
{
    let ghost gv = groups_view(groups@);
    let mut rows = continue_plan(cont, found);
    let ghost first = plans_view(rows@);
    match recent_plan(movies, series) {
        Some(row) => {
            rows.push(row);
            assert(plans_view(rows@) =~= first + recent_row(movies.deep_view(), series.deep_view()));
        },
        None => {
            assert(plans_view(rows@) =~= first + recent_row(movies.deep_view(), series.deep_view()));
        },
    }
    let ghost head = plans_view(rows@);
    let mut g: usize = 0;
    assert(group_rows(gv.take(0)) =~= Seq::<RowPlanView>::empty());
    assert(plans_view(rows@) =~= head + group_rows(gv.take(0)));
    while g < groups.len()
        invariant
            g <= groups@.len(),
            gv == groups_view(groups@),
            plans_view(rows@) == head + group_rows(gv.take(g as int)),
        decreases groups@.len() - g,
    {
        assert(gv.take(g + 1).drop_last() =~= gv.take(g as int));
        let (kind, name, items) = &groups[g];
        assert(gv.take(g + 1).last() == (*kind, name@, items.deep_view()));
        let ghost before = plans_view(rows@);
        if items.len() > 0 {
            let row = RowPlan {
                key: row_key(*kind, name.as_str()),
                title: name.clone(),
                kind: String::from_str(kind.as_str()),
                items: clone_ids(items),
            };
            rows.push(row);
            assert(plans_view(rows@) =~= before.push(rows@[rows@.len() - 1]@));
        }
        g += 1;
    }
    assert(gv.take(groups@.len() as int) =~= gv);
    rows
}

/// O Início: "Continuar assistindo" só com histórico em andamento e sempre em
/// primeiro; "Adicionados recentemente" traz filmes antes de séries, nunca mais
/// que `ROW_LIMIT`; nenhuma linha de gênero vazia.
pub proof fn law_board_layout(
    cont: Seq<Seq<char>>,
    found: Seq<Seq<char>>,
    movies: Seq<Seq<char>>,
    series: Seq<Seq<char>>,
    groups: Seq<(Kind, Seq<char>, Seq<Seq<char>>)>,
)
    ensures
        cont.len() > 0 ==> board_spec(cont, found, movies, series, groups)[0].key == "continue"@,
        cont.len() == 0 ==> board_spec(cont, found, movies, series, groups) == recent_row(movies, series) + group_rows(groups),
        forall|i: int| 0 <= i < recent_row(movies, series).len() ==> {
            &&& #[trigger] recent_row(movies, series)[i].items.len() <= 20
            &&& recent_row(movies, series)[i].items.len() > 0
        },
        forall|i: int| 0 <= i < group_rows(groups).len() ==> #[trigger] group_rows(groups)[i].items.len() > 0,
{
    if cont.len() == 0 {
        assert(continue_row(cont, found) + recent_row(movies, series) =~= recent_row(movies, series));
    }
    lemma_group_rows_nonempty(groups);
}

proof fn lemma_group_rows_nonempty(groups: Seq<(Kind, Seq<char>, Seq<Seq<char>>)>)
    ensures
        forall|i: int| 0 <= i < group_rows(groups).len() ==> #[trigger] group_rows(groups)[i].items.len() > 0,
    decreases groups.len(),
{
    if groups.len() > 0 {
        lemma_group_rows_nonempty(groups.drop_last());
        let rest = group_rows(groups.drop_last());
        assert forall|i: int| 0 <= i < group_rows(groups).len() implies #[trigger] group_rows(groups)[i].items.len() > 0 by {
            if i < rest.len() {
                assert(group_rows(groups)[i] == rest[i]);
            }
        }
    }
}

// ---------------------------------------------------------------- leis

/// O nome de banco de cada aba volta para a mesma aba.
pub proof fn law_kind_roundtrip(kind: Kind)
    ensures
        parse_kind(kind_name(kind)) == Some(kind),
{
    reveal_strlit("movie");
    reveal_strlit("series");
    reveal_strlit("channel");
    reveal_strlit("filmes");
    reveal_strlit("canais");
    match kind {
        Kind::Movie => {},
        Kind::Series => {
            assert("series"@[0] != "filmes"@[0]);
            assert("series"@ != "movie"@);
        },
        Kind::Channel => {
            assert("channel"@[0] != "filmes"@[0]);
            assert("channel"@[0] != "movie"@[0]);
            assert("channel"@ != "series"@);
        },
    }
}

/// Canais cabem numa página muito maior que a das outras abas.
pub proof fn law_channel_page_is_larger()
    ensures
        page_size_spec(Kind::Channel) > page_size_spec(Kind::Movie),
        page_size_spec(Kind::Movie) == page_size_spec(Kind::Series),
{
}

proof fn lemma_first_index(found: Seq<Seq<char>>, id: Seq<char>, from: int)
    requires
        0 <= from,
    ensures
        first_index(found, id, from) matches Some(k) ==> from <= k < found.len() && found[k] == id,
        (exists|k: int| from <= k < found.len() && found[k] == id) ==> first_index(found, id, from) is Some,
    decreases found.len() - from,
{
    if from < found.len() && found[from] != id {
        lemma_first_index(found, id, from + 1);
        if exists|k: int| from <= k < found.len() && found[k] == id {
            let k = choose|k: int| from <= k < found.len() && found[k] == id;
            assert(k != from);
            assert(from + 1 <= k);
        }
    }
}

/// `by_ids` devolve itens de ids pedidos, e, quando todo id pedido foi achado,
/// exatamente um item por id, na ordem pedida.
pub proof fn law_by_ids_keeps_the_order(ids: Seq<Seq<char>>, found: Seq<Seq<char>>)
    ensures
        forall|i: int| 0 <= i < ordered_positions(ids, found).len() ==> {
            let p = #[trigger] ordered_positions(ids, found)[i];
            0 <= p < found.len() && ids.contains(found[p])
        },
        (forall|j: int| 0 <= j < ids.len() ==> #[trigger] found.contains(ids[j])) ==> {
            &&& ordered_positions(ids, found).len() == ids.len()
            &&& forall|i: int| 0 <= i < ids.len() ==> found[#[trigger] ordered_positions(ids, found)[i]] == ids[i]
        },
    decreases ids.len(),
{
    if ids.len() > 0 {
        let rest_ids = ids.drop_last();
        law_by_ids_keeps_the_order(rest_ids, found);
        let rest = ordered_positions(rest_ids, found);
        let last = ids.last();
        lemma_first_index(found, last, 0);
        let out = ordered_positions(ids, found);
        assert forall|i: int| 0 <= i < out.len() implies {
            let p = #[trigger] out[i];
            0 <= p < found.len() && ids.contains(found[p])
        } by {
            if i < rest.len() {
                assert(out[i] == rest[i]);
                let p = rest[i];
                let j = choose|j: int| 0 <= j < rest_ids.len() && rest_ids[j] == found[p];
                assert(ids[j] == rest_ids[j]);
            } else {
                assert(ids[ids.len() - 1] == last);
            }
        }
        if forall|j: int| 0 <= j < ids.len() ==> #[trigger] found.contains(ids[j]) {
            assert forall|j: int| 0 <= j < rest_ids.len() implies #[trigger] found.contains(rest_ids[j]) by {
                assert(rest_ids[j] == ids[j]);
            }
            assert(found.contains(ids[ids.len() - 1]));
            let k = choose|k: int| 0 <= k < found.len() && found[k] == last;
            assert(first_index(found, last, 0) is Some);
            assert forall|i: int| 0 <= i < ids.len() implies found[#[trigger] out[i]] == ids[i] by {
                if i < rest.len() {
                    assert(out[i] == rest[i]);
                    assert(rest_ids[i] == ids[i]);
                }
            }
        }
    }
}

/// Posição que o `dedup` guarda: a primeira, ou a que difere da anterior.
pub open spec fn kept(ids: Seq<Seq<char>>, j: int) -> bool {
    j == 0 || ids[j] != ids[j - 1]
}

proof fn lemma_dedup_positions(ids: Seq<Seq<char>>)
    ensures
        forall|k: int| 0 <= k < dedup_positions_spec(ids).len() ==> 0 <= #[trigger] dedup_positions_spec(ids)[k] < ids.len(),
        forall|a: int, b: int| 0 <= a < b < dedup_positions_spec(ids).len() ==>
            #[trigger] dedup_positions_spec(ids)[a] < #[trigger] dedup_positions_spec(ids)[b],
        forall|k: int| 0 <= k < dedup_positions_spec(ids).len() ==> kept(ids, #[trigger] dedup_positions_spec(ids)[k]),
        forall|j: int| 0 <= j < ids.len() && #[trigger] kept(ids, j) ==> dedup_positions_spec(ids).contains(j),
    decreases ids.len(),
{
    if ids.len() > 0 {
        let prev = ids.drop_last();
        lemma_dedup_positions(prev);
        let rest = dedup_positions_spec(prev);
        let d = dedup_positions_spec(ids);
        let i = ids.len() - 1;
        assert forall|j: int| 0 <= j < i implies #[trigger] kept(ids, j) == kept(prev, j) by {}
        if i > 0 && ids[i] == ids[i - 1] {
            assert(d == rest);
            assert forall|k: int| 0 <= k < d.len() implies kept(ids, #[trigger] d[k]) by {
                assert(kept(prev, d[k]));
            }
            assert forall|j: int| 0 <= j < ids.len() && #[trigger] kept(ids, j) implies d.contains(j) by {
                assert(kept(prev, j));
            }
        } else {
            assert(d == rest.push(i));
            assert forall|k: int| 0 <= k < d.len() implies kept(ids, #[trigger] d[k]) by {
                if k < rest.len() {
                    assert(d[k] == rest[k]);
                    assert(kept(prev, rest[k]));
                }
            }
            assert forall|j: int| 0 <= j < ids.len() && #[trigger] kept(ids, j) implies d.contains(j) by {
                if j < i {
                    assert(kept(prev, j));
                    let m = choose|m: int| 0 <= m < rest.len() && rest[m] == j;
                    assert(d[m] == j);
                } else {
                    assert(d[d.len() - 1] == i);
                }
            }
        }
    }
}

proof fn lemma_run_of_repeats(ids: Seq<Seq<char>>, p: int, q: int)
    requires
        0 <= p < q <= ids.len(),
        forall|j: int| p < j < q ==> #[trigger] ids[j] == ids[j - 1],
    ensures
        ids[q - 1] == ids[p],
    decreases q - p,
{
    if q - 1 > p {
        lemma_run_of_repeats(ids, p, q - 1);
        assert(ids[q - 1] == ids[q - 2]);
    }
}

/// Depois do `dedup` da linha "Continuar assistindo": posições crescentes e
/// dentro da lista, a primeira sempre fica, e dois itens seguidos nunca têm o
/// mesmo id.
pub proof fn law_dedup_has_no_neighbors_alike(ids: Seq<Seq<char>>)
    ensures
        forall|a: int, b: int| 0 <= a < b < dedup_positions_spec(ids).len() ==>
            #[trigger] dedup_positions_spec(ids)[a] < #[trigger] dedup_positions_spec(ids)[b],
        forall|k: int| 0 <= k < dedup_positions_spec(ids).len() ==> 0 <= #[trigger] dedup_positions_spec(ids)[k] < ids.len(),
        ids.len() > 0 ==> dedup_positions_spec(ids).len() > 0 && dedup_positions_spec(ids)[0] == 0,
        forall|k: int| 0 <= k < dedup_positions_spec(ids).len() - 1 ==>
            ids[#[trigger] dedup_positions_spec(ids)[k]] != ids[dedup_positions_spec(ids)[k + 1]],
{
    lemma_dedup_positions(ids);
    let d = dedup_positions_spec(ids);
    if ids.len() > 0 {
        assert(kept(ids, 0));
        let m = choose|m: int| 0 <= m < d.len() && d[m] == 0;
        if m > 0 {
            assert(d[0] < d[m]);
        }
    }
    assert forall|k: int| 0 <= k < d.len() - 1 implies ids[#[trigger] d[k]] != ids[d[k + 1]] by {
        let (p, q) = (d[k], d[k + 1]);
        assert(p < q);
        assert forall|j: int| p < j < q implies #[trigger] ids[j] == ids[j - 1] by {
            if kept(ids, j) {
                let m = choose|m: int| 0 <= m < d.len() && d[m] == j;
                if m <= k {
                    if m < k {
                        assert(d[m] < d[k]);
                    }
                } else if m >= k + 1 {
                    if m > k + 1 {
                        assert(d[k + 1] < d[m]);
                    }
                }
            }
        }
        lemma_run_of_repeats(ids, p, q);
        assert(kept(ids, q));
    }
}

} // verus!
