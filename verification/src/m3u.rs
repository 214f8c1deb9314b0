//! Parser de listas M3U/M3U8 em streaming.
//!
//! A lista chega com 100 mil linhas ou mais: o parser nunca guarda o texto
//! inteiro, entrega uma `Entry` por vez ao chamador e conta o que descartou. Uma
//! linha ruim não derruba o import.

use vstd::prelude::*;

use crate::ids::{
    digest_spec, episode_key, hex_text, is_lower_hex, item_key, law_item_key_injective, lemma_hex_text,
    lemma_split_at_sep, normalize, normalize_spec, sha256, unit_sep,
};
use crate::text::{
    lemma_trim_idempotent, lines, lines_of,
    all_digits, ascii_digit, is_alnum, is_digit, char_is_alphanumeric,
    contains_seq, contains_lit, fold, fold_str, int_literal, join, join_space, last_index_of,
    last_index_of_exec, lemma_last_index_of, parse_i64, parse_i64_chars, strip_trailing,
    strip_trailing_exec, trim_non_alnum, trim_non_alnum_exec, upper, to_uppercase, words,
    words_of, lemma_deep_view_chars,
    chars_of, find_char, find_char_from, find_white, find_white_from, is_num, is_white,
    lemma_find_char, lemma_find_white, lemma_skip_white, lower, skip_white, skip_white_from,
    slice_chars, starts_with_lit, string_of, to_lowercase, trim, trim_chars, char_is_numeric,
    eq_lit,
};

verus! {

// ---------------------------------------------------------------- #EXTINF

/// Estado da varredura do corpo do `#EXTINF`: dentro de aspas, e a posição da
/// última vírgula fora de aspas.
pub open spec fn comma_state(s: Seq<char>) -> (bool, Option<int>)
    decreases s.len(),
{
    if s.len() == 0 {
        (false, None)
    } else {
        let (quoted, at) = comma_state(s.drop_last());
        let c = s.last();
        if c == '"' {
            (!quoted, at)
        } else if c == ',' && !quoted {
            (quoted, Some(s.len() - 1))
        } else {
            (quoted, at)
        }
    }
}

/// `trim_start_matches(|c| c == '-' || c.is_numeric())`.
pub open spec fn strip_key_prefix(s: Seq<char>) -> Seq<char>
    decreases s.len(),
{
    if s.len() > 0 && (s[0] == '-' || is_num(s[0])) {
        strip_key_prefix(s.drop_first())
    } else {
        s
    }
}

/// Chave de atributo: sem o `-1 ` da duração na frente, aparada, minúscula.
pub open spec fn clean_key(raw: Seq<char>) -> Seq<char> {
    lower(trim(strip_key_prefix(raw)))
}

/// Valor que começa em `at` (logo depois do `=`) e onde a leitura continua:
/// entre aspas até a aspa seguinte, ou sem aspas até o próximo espaço.
pub open spec fn attr_value(b: Seq<char>, at: int) -> (Seq<char>, int) {
    if at < b.len() && b[at] == '"' {
        let end = find_char(b, at + 1, '"');
        (b.subrange(at + 1, end), end + 1)
    } else {
        let end = find_white(b, at);
        (b.subrange(at, end), end)
    }
}

/// Atributos `chave=valor` a partir de `cursor`.
pub open spec fn attrs_from(b: Seq<char>, cursor: int) -> Seq<(Seq<char>, Seq<char>)>
    decreases b.len() + 1 - cursor,
{
    if cursor < 0 || cursor >= b.len() {
        seq![]
    } else {
        let eq = find_char(b, cursor, '=');
        if eq >= b.len() || eq < cursor {
            seq![]
        } else {
            let (value, after) = attr_value(b, eq + 1);
            let next = skip_white(b, after);
            let rest = if cursor < next <= b.len() + 1 {
                attrs_from(b, next)
            } else {
                seq![]
            };
            let key = clean_key(b.subrange(cursor, eq));
            if key.len() > 0 {
                seq![(key, value)] + rest
            } else {
                rest
            }
        }
    }
}

pub open spec fn extinf_prefix() -> Seq<char> {
    "#EXTINF:"@
}

/// `#EXTINF:tvg-logo="x" group-title="y",Nome` → atributos e nome. A vírgula
/// que separa atributos do nome é a última fora de aspas; sem ela, ou com nome
/// vazio, a linha não serve.
pub open spec fn split_extinf_spec(line: Seq<char>) -> Option<(Seq<(Seq<char>, Seq<char>)>, Seq<char>)> {
    let p = extinf_prefix();
    if p.len() <= line.len() && line.take(p.len() as int) == p {
        let body = line.skip(p.len() as int);
        match comma_state(body).1 {
            Some(at) => {
                let name = trim(body.skip(at + 1));
                if name.len() == 0 {
                    None
                } else {
                    Some((attrs_from(body.take(at), 0), name))
                }
            },
            None => None,
        }
    } else {
        None
    }
}

pub type Attrs = Vec<(Vec<char>, Vec<char>)>;

pub open spec fn attrs_view(v: Seq<(Vec<char>, Vec<char>)>) -> Seq<(Seq<char>, Seq<char>)> {
    Seq::new(v.len(), |i: int| (v[i].0@, v[i].1@))
}

fn clean_key_exec(b: &[char], from: usize, to: usize) -> (r: Vec<char>)
    requires
        from <= to <= b@.len(),
    ensures
        r@ == clean_key(b@.subrange(from as int, to as int)),
{
    let ghost raw = b@.subrange(from as int, to as int);
    let mut i = from;
    while i < to && (b[i] == '-' || char_is_numeric(b[i]))
        invariant
            from <= i <= to <= b@.len(),
            raw == b@.subrange(from as int, to as int),
            strip_key_prefix(raw) == strip_key_prefix(b@.subrange(i as int, to as int)),
        decreases to - i,
    {
        assert(b@.subrange(i as int, to as int).drop_first() =~= b@.subrange(i + 1, to as int));
        i += 1;
    }
    let rest = slice_chars(b, i, to);
    let trimmed = trim_chars(rest.as_slice());
    let text = string_of(trimmed.as_slice());
    let lowered = to_lowercase(text.as_str());
    chars_of(lowered.as_str())
}

fn parse_attrs(b: &[char]) -> (r: Attrs)
    ensures
        attrs_view(r@) == attrs_from(b@, 0),
{
    let n = b.len();
    let mut out: Attrs = Vec::new();
    let mut cursor: usize = 0;
    while cursor < n
        invariant
            n == b@.len(),
            cursor <= n + 1,
            attrs_view(out@) + attrs_from(b@, cursor as int) == attrs_from(b@, 0),
        decreases n + 1 - cursor,
    {
        let start = cursor;
        let eq = find_char_from(b, start, '=');
        proof { lemma_find_char(b@, start as int, '='); }
        if eq >= n {
            assert(attrs_from(b@, start as int) == Seq::<(Seq<char>, Seq<char>)>::empty());
            assert(attrs_from(b@, n as int) == Seq::<(Seq<char>, Seq<char>)>::empty());
            cursor = n;
        } else {
            let at = eq + 1;
            let value;
            let next;
            if at < n && b[at] == '"' {
                let end = find_char_from(b, at + 1, '"');
                proof { lemma_find_char(b@, at + 1, '"'); }
                value = slice_chars(b, at + 1, end);
                if end < n {
                    next = skip_white_from(b, end + 1);
                    proof { lemma_skip_white(b@, end + 1); }
                } else {
                    next = n;
                    proof {
                        lemma_skip_white(b@, end + 1);
                        assert(attrs_from(b@, end + 1) == Seq::<(Seq<char>, Seq<char>)>::empty());
                    }
                }
            } else {
                let end = find_white_from(b, at);
                proof { lemma_find_white(b@, at as int); }
                value = slice_chars(b, at, end);
                next = skip_white_from(b, end);
                proof { lemma_skip_white(b@, end as int); }
            }
            let ghost after = attr_value(b@, at as int).1;
            assert(value@ == attr_value(b@, at as int).0);
            assert(attrs_from(b@, skip_white(b@, after)) == attrs_from(b@, next as int));
            let key = clean_key_exec(b, start, eq);
            let ghost rest = attrs_from(b@, next as int);
            let ghost before = attrs_view(out@);
            if key.len() > 0 {
                out.push((key, value));
                assert(attrs_view(out@) =~= before.push((key@, value@)));
                assert(attrs_from(b@, start as int) == seq![(key@, value@)] + rest);
                assert(attrs_view(out@) + rest =~= before + (seq![(key@, value@)] + rest));
            } else {
                assert(attrs_from(b@, start as int) == rest);
            }
            cursor = next;
        }
    }
    proof {
        if cursor >= n {
            assert(attrs_from(b@, cursor as int) == Seq::<(Seq<char>, Seq<char>)>::empty());
            assert(attrs_view(out@) + Seq::<(Seq<char>, Seq<char>)>::empty() =~= attrs_view(out@));
        }
    }
    out
}

fn split_extinf(line: &[char]) -> (r: Option<(Attrs, Vec<char>)>)
    ensures
        match (r, split_extinf_spec(line@)) {
            (Some((attrs, name)), Some((sattrs, sname))) => attrs_view(attrs@) == sattrs && name@ == sname,
            (None, None) => true,
            _ => false,
        },
{
    if !starts_with_lit(line, "#EXTINF:") {
        return None;
    }
    let p = "#EXTINF:".unicode_len();
    let body = slice_chars(line, p, line.len());
    assert(body@ =~= line@.skip(p as int));
    let n = body.len();
    let mut quoted = false;
    let mut split_at: Option<usize> = None;
    let mut i: usize = 0;
    while i < n
        invariant
            i <= n == body@.len(),
            comma_state(body@.take(i as int)) == (quoted, match split_at {
                Some(k) => Some(k as int),
                None => None::<int>,
            }),
            forall|k: usize| split_at == Some(k) ==> k < i,
        decreases n - i,
    {
        let c = body[i];
        assert(body@.take(i + 1).drop_last() =~= body@.take(i as int));
        if c == '"' {
            quoted = !quoted;
        } else if c == ',' && !quoted {
            split_at = Some(i);
        }
        i += 1;
    }
    assert(body@.take(n as int) =~= body@);
    let at = match split_at {
        Some(at) => at,
        None => return None,
    };
    let tail = slice_chars(body.as_slice(), at + 1, n);
    assert(tail@ =~= body@.skip(at + 1));
    let name = trim_chars(tail.as_slice());
    if name.len() == 0 {
        return None;
    }
    let head = slice_chars(body.as_slice(), 0, at);
    assert(head@ =~= body@.take(at as int));
    let attrs = parse_attrs(head.as_slice());
    Some((attrs, name))
}


// ---------------------------------------------------------------- atributos

/// Valor do primeiro atributo com a chave, quando não é vazio.
pub open spec fn attr_lookup(attrs: Seq<(Seq<char>, Seq<char>)>, key: Seq<char>) -> Option<Seq<char>>
    decreases attrs.len(),
{
    if attrs.len() == 0 {
        None
    } else if attrs[0].0 == key {
        if attrs[0].1.len() > 0 {
            Some(attrs[0].1)
        } else {
            None
        }
    } else {
        attr_lookup(attrs.drop_first(), key)
    }
}

fn attr(attrs: &Attrs, key: &str) -> (r: Option<Vec<char>>)
    ensures
        match r {
            Some(v) => attr_lookup(attrs_view(attrs@), key@) == Some(v@),
            None => attr_lookup(attrs_view(attrs@), key@) == None::<Seq<char>>,
        },
{
    let n = attrs.len();
    let mut i: usize = 0;
    assert(attrs_view(attrs@).skip(0) =~= attrs_view(attrs@));
    while i < n
        invariant
            i <= n == attrs@.len(),
            attr_lookup(attrs_view(attrs@), key@) == attr_lookup(attrs_view(attrs@).skip(i as int), key@),
        decreases n - i,
    {
        let ghost tail = attrs_view(attrs@).skip(i as int);
        assert(tail[0] == (attrs@[i as int].0@, attrs@[i as int].1@));
        if eq_lit(attrs[i].0.as_slice(), key) {
            if attrs[i].1.len() > 0 {
                return Some(slice_chars(attrs[i].1.as_slice(), 0, attrs[i].1.len()));
            } else {
                return None;
            }
        }
        assert(tail.drop_first() =~= attrs_view(attrs@).skip(i + 1));
        i += 1;
    }
    None
}

// ---------------------------------------------------------------- variante

/// Marcas de versão legendada. "l" entra porque "[L]" é a convenção dominante
/// nas listas em português.
pub open spec fn is_legendado_token(t: Seq<char>) -> bool {
    ||| t == "l"@ ||| t == "leg"@ ||| t == "legendado"@ ||| t == "legendada"@
    ||| t == "legendados"@ ||| t == "legendadas"@ ||| t == "sub"@ ||| t == "subbed"@
}

/// Marcas de versão dublada. Sem "n" solto: letra única gera falso positivo
/// demais em título.
pub open spec fn is_dublado_token(t: Seq<char>) -> bool {
    ||| t == "dub"@ ||| t == "dublado"@ ||| t == "dublada"@ ||| t == "dubladas"@
    ||| t == "dublados"@
}

/// Primeira marca de versão entre os tokens.
pub open spec fn first_variant(ts: Seq<Seq<char>>) -> Option<Seq<char>>
    decreases ts.len(),
{
    if ts.len() == 0 {
        None
    } else if is_legendado_token(ts[0]) {
        Some("Legendado"@)
    } else if is_dublado_token(ts[0]) {
        Some("Dublado"@)
    } else {
        first_variant(ts.drop_first())
    }
}

pub open spec fn any_legendado(ts: Seq<Seq<char>>) -> bool {
    exists|i: int| 0 <= i < ts.len() && is_legendado_token(#[trigger] ts[i])
}

/// Versão do áudio, quando a lista marca. O nome manda; o grupo só é consultado
/// para o sinal de legendado.
pub open spec fn detect_variant_spec(name: Seq<char>, group: Option<Seq<char>>) -> Option<Seq<char>> {
    match first_variant(words(fold(name))) {
        Some(v) => Some(v),
        None => match group {
            Some(g) => if any_legendado(words(fold(g))) {
                Some("Legendado"@)
            } else {
                None
            },
            None => None,
        },
    }
}

fn is_legendado_exec(t: &[char]) -> (b: bool)
    ensures
        b == is_legendado_token(t@),
{
    eq_lit(t, "l") || eq_lit(t, "leg") || eq_lit(t, "legendado") || eq_lit(t, "legendada")
        || eq_lit(t, "legendados") || eq_lit(t, "legendadas") || eq_lit(t, "sub")
        || eq_lit(t, "subbed")
}

fn is_dublado_exec(t: &[char]) -> (b: bool)
    ensures
        b == is_dublado_token(t@),
{
    eq_lit(t, "dub") || eq_lit(t, "dublado") || eq_lit(t, "dublada") || eq_lit(t, "dubladas")
        || eq_lit(t, "dublados")
}

fn detect_variant(name: &str, group: Option<&str>) -> (r: Option<String>)
    ensures
        match r {
            Some(v) => detect_variant_spec(name@, match group {
                Some(g) => Some(g@),
                None => None,
            }) == Some(v@),
            None => detect_variant_spec(name@, match group {
                Some(g) => Some(g@),
                None => None,
            }) == None::<Seq<char>>,
        },
{
    let folded = fold_str(name);
    let tokens = words_of(folded.as_slice());
    let ghost ts = tokens.deep_view();
    let mut i: usize = 0;
    assert(ts.skip(0) =~= ts);
    while i < tokens.len()
        invariant
            i <= tokens@.len(),
            ts == tokens.deep_view(),
            ts == words(fold(name@)),
            first_variant(ts) == first_variant(ts.skip(i as int)),
        decreases tokens@.len() - i,
    {
        assert(ts.skip(i as int)[0] == tokens@[i as int]@);
        if is_legendado_exec(tokens[i].as_slice()) {
            return Some(String::from_str("Legendado"));
        }
        if is_dublado_exec(tokens[i].as_slice()) {
            return Some(String::from_str("Dublado"));
        }
        assert(ts.skip(i as int).drop_first() =~= ts.skip(i + 1));
        i += 1;
    }
    assert(first_variant(ts.skip(tokens@.len() as int)) == None::<Seq<char>>);
    let g = match group {
        Some(g) => g,
        None => return None,
    };
    let gfolded = fold_str(g);
    let gtokens = words_of(gfolded.as_slice());
    let ghost gs = gtokens.deep_view();
    let mut k: usize = 0;
    while k < gtokens.len()
        invariant
            k <= gtokens@.len(),
            gs == gtokens.deep_view(),
            gs == words(fold(g@)),
            group == Some(g),
            first_variant(words(fold(name@))) == None::<Seq<char>>,
            forall|j: int| 0 <= j < k ==> !is_legendado_token(#[trigger] gs[j]),
        decreases gtokens@.len() - k,
    {
        assert(gs[k as int] == gtokens@[k as int]@);
        if is_legendado_exec(gtokens[k].as_slice()) {
            assert(is_legendado_token(gs[k as int]));
            assert(any_legendado(gs));
            return Some(String::from_str("Legendado"));
        }
        k += 1;
    }
    None
}

// ---------------------------------------------------------------- qualidade

/// Marcas de qualidade, já em maiúsculas.
pub open spec fn is_quality_token(t: Seq<char>) -> bool {
    ||| t == "4K"@ ||| t == "8K"@ ||| t == "UHD"@ ||| t == "FHD"@ ||| t == "HD"@
    ||| t == "SD"@ ||| t == "H265"@ ||| t == "H264"@ ||| t == "HEVC"@ ||| t == "1080P"@
    ||| t == "720P"@ ||| t == "2160P"@
}

/// Token sem pontuação nas pontas, em maiúsculas.
pub open spec fn bare_token(t: Seq<char>) -> Seq<char> {
    upper(trim_non_alnum(t))
}

/// Marcas encontradas (já nuas) e tokens mantidos.
pub open spec fn quality_scan(ts: Seq<Seq<char>>) -> (Seq<Seq<char>>, Seq<Seq<char>>)
    decreases ts.len(),
{
    if ts.len() == 0 {
        (seq![], seq![])
    } else {
        let (found, kept) = quality_scan(ts.drop_last());
        let b = bare_token(ts.last());
        if is_quality_token(b) {
            (found.push(b), kept)
        } else {
            (found, kept.push(ts.last()))
        }
    }
}

/// `Vec::dedup`: repetições consecutivas saem.
pub open spec fn dedup(s: Seq<Seq<char>>) -> Seq<Seq<char>>
    decreases s.len(),
{
    if s.len() == 0 {
        seq![]
    } else {
        let d = dedup(s.drop_last());
        if d.len() > 0 && d.last() == s.last() {
            d
        } else {
            d.push(s.last())
        }
    }
}

/// Tokens de qualidade encontrados (sem repetição seguida, separados por
/// espaço), e o nome sem eles.
pub open spec fn strip_quality_spec(name: Seq<char>) -> (Option<Seq<char>>, Seq<char>) {
    let (found, kept) = quality_scan(words(name));
    (
        if found.len() == 0 {
            None
        } else {
            Some(join(dedup(found), seq![' ']))
        },
        join(kept, seq![' ']),
    )
}

fn is_quality_exec(t: &[char]) -> (b: bool)
    ensures
        b == is_quality_token(t@),
{
    eq_lit(t, "4K") || eq_lit(t, "8K") || eq_lit(t, "UHD") || eq_lit(t, "FHD") || eq_lit(t, "HD")
        || eq_lit(t, "SD") || eq_lit(t, "H265") || eq_lit(t, "H264") || eq_lit(t, "HEVC")
        || eq_lit(t, "1080P") || eq_lit(t, "720P") || eq_lit(t, "2160P")
}

fn dedup_exec(v: &Vec<Vec<char>>) -> (r: Vec<Vec<char>>)
    ensures
        r.deep_view() == dedup(v.deep_view()),
{
    let ghost vs = v.deep_view();
    let mut out: Vec<Vec<char>> = Vec::new();
    let mut i: usize = 0;
    while i < v.len()
        invariant
            i <= v@.len(),
            vs == v.deep_view(),
            out.deep_view() == dedup(vs.take(i as int)),
        decreases v@.len() - i,
    {
        assert(vs.take(i + 1).drop_last() =~= vs.take(i as int));
        assert(vs[i as int] == v@[i as int]@);
        let same = out.len() > 0 && eq_chars(out[out.len() - 1].as_slice(), v[i].as_slice());
        proof {
            if out.len() > 0 {
                assert(out.deep_view().last() == out@[out@.len() - 1]@);
            }
        }
        if !same {
            let ghost before = out.deep_view();
            let t = slice_chars(v[i].as_slice(), 0, v[i].len());
            assert(t@ =~= v@[i as int]@);
            proof { lemma_deep_view_chars(&t); }
            out.push(t);
            assert(out.deep_view() =~= before.push(vs[i as int]));
        }
        i += 1;
    }
    assert(vs.take(v@.len() as int) =~= vs);
    out
}

fn eq_chars(a: &[char], b: &[char]) -> (r: bool)
    ensures
        r == (a@ == b@),
{
    if a.len() != b.len() {
        return false;
    }
    let mut i: usize = 0;
    while i < a.len()
        invariant
            i <= a@.len() == b@.len(),
            forall|k: int| 0 <= k < i ==> a@[k] == b@[k],
        decreases a@.len() - i,
    {
        if a[i] != b[i] {
            return false;
        }
        i += 1;
    }
    assert(a@ =~= b@);
    true
}

fn strip_quality(name: &[char]) -> (r: (Option<Vec<char>>, Vec<char>))
    ensures
        (match r.0 {
            Some(q) => Some(q@),
            None => None,
        }, r.1@) == strip_quality_spec(name@),
{
    let tokens = words_of(name);
    let ghost ts = tokens.deep_view();
    let mut found: Vec<Vec<char>> = Vec::new();
    let mut kept: Vec<Vec<char>> = Vec::new();
    let mut i: usize = 0;
    while i < tokens.len()
        invariant
            i <= tokens@.len(),
            ts == tokens.deep_view(),
            (found.deep_view(), kept.deep_view()) == quality_scan(ts.take(i as int)),
        decreases tokens@.len() - i,
    {
        assert(ts.take(i + 1).drop_last() =~= ts.take(i as int));
        assert(ts[i as int] == tokens@[i as int]@);
        let trimmed = trim_non_alnum_exec(tokens[i].as_slice());
        let text = string_of(trimmed.as_slice());
        let upper_text = to_uppercase(text.as_str());
        let bare = chars_of(upper_text.as_str());
        if is_quality_exec(bare.as_slice()) {
            let ghost before = found.deep_view();
            proof { lemma_deep_view_chars(&bare); }
            found.push(bare);
            assert(found.deep_view() =~= before.push(bare_token(ts[i as int])));
        } else {
            let ghost before = kept.deep_view();
            let t = slice_chars(tokens[i].as_slice(), 0, tokens[i].len());
            assert(t@ =~= tokens@[i as int]@);
            proof { lemma_deep_view_chars(&t); }
            kept.push(t);
            assert(kept.deep_view() =~= before.push(ts[i as int]));
        }
        i += 1;
    }
    assert(ts.take(tokens@.len() as int) =~= ts);
    let rest = join_space(&kept);
    if found.len() == 0 {
        (None, rest)
    } else {
        let unique = dedup_exec(&found);
        (Some(join_space(&unique)), rest)
    }
}

// ---------------------------------------------------------------- ano

pub open spec fn is_year(y: i64) -> bool {
    1900 <= y <= 2100
}

/// Ano entre parênteses: o último `(`, com o que vem depois sem os `)` finais.
pub open spec fn paren_year(t: Seq<char>) -> Option<(i64, Seq<char>)> {
    match last_index_of(t, '(') {
        Some(open) => match parse_i64(trim(strip_trailing(t.skip(open + 1), ')'))) {
            Some(y) => if is_year(y) {
                Some((y, trim(t.take(open))))
            } else {
                None
            },
            None => None,
        },
        None => None,
    }
}

/// Ano em `(2019)` ou como último token do nome; sem ano, o nome aparado.
pub open spec fn extract_year_spec(name: Seq<char>) -> (Option<i64>, Seq<char>) {
    let t = trim(name);
    match paren_year(t) {
        Some((y, rest)) => (Some(y), rest),
        None => {
            let ts = words(t);
            if ts.len() > 0 && parse_i64(ts.last()) is Some && is_year(
                parse_i64(ts.last())->0,
            ) {
                (Some(parse_i64(ts.last())->0), join(ts.drop_last(), seq![' ']))
            } else {
                (None, t)
            }
        },
    }
}

fn extract_year(name: &[char]) -> (r: (Option<i64>, Vec<char>))
    ensures
        (r.0, r.1@) == extract_year_spec(name@),
{
    let t = trim_chars(name);
    let tl = t.len();
    if let Some(open) = last_index_of_exec(t.as_slice(), '(') {
        proof { lemma_last_index_of(t@, '('); }
        assert(open < t@.len());
        let after = slice_chars(t.as_slice(), open + 1, tl);
        assert(after@ =~= t@.skip(open + 1));
        let stripped = strip_trailing_exec(after.as_slice(), ')');
        let inside = trim_chars(stripped.as_slice());
        if let Some(year) = parse_i64_chars(inside.as_slice(), 0, inside.len()) {
            assert(inside@.subrange(0, inside@.len() as int) =~= inside@);
            if 1900 <= year && year <= 2100 {
                let head = slice_chars(t.as_slice(), 0, open);
                assert(head@ =~= t@.take(open as int));
                return (Some(year), trim_chars(head.as_slice()));
            }
        } else {
            assert(inside@.subrange(0, inside@.len() as int) =~= inside@);
        }
    }
    let mut tokens = words_of(t.as_slice());
    let ghost ts = tokens.deep_view();
    if tokens.len() > 0 {
        let last = tokens.len() - 1;
        let year = parse_i64_chars(tokens[last].as_slice(), 0, tokens[last].len());
        assert(tokens@[last as int]@.subrange(0, tokens@[last as int]@.len() as int) =~= tokens@[last as int]@);
        assert(ts.last() == tokens@[last as int]@);
        if let Some(y) = year {
            if 1900 <= y && y <= 2100 {
                tokens.pop();
                assert(tokens.deep_view() =~= ts.drop_last());
                return (Some(y), join_space(&tokens));
            }
        }
    }
    (None, t)
}


// ---------------------------------------------------------------- episódio

pub open spec fn low_is(low: Seq<char>, i: int, c: char) -> bool {
    0 <= i < low.len() && low[i] == c
}

/// Fim da sequência de dígitos ASCII que começa em `from`.
pub open spec fn digit_end(s: Seq<char>, from: int) -> int
    decreases s.len() - from,
{
    if 0 <= from < s.len() && is_digit(s[from]) {
        digit_end(s, from + 1)
    } else {
        from
    }
}

/// Início da sequência de dígitos ASCII que termina logo antes de `end`.
pub open spec fn digit_start(s: Seq<char>, end: int) -> int
    decreases end,
{
    if 0 < end <= s.len() && is_digit(s[end - 1]) {
        digit_start(s, end - 1)
    } else {
        end
    }
}

pub open spec fn is_mark_sep(c: char) -> bool {
    c == ' ' || c == '-' || c == '.' || c == '_'
}

/// Fim da sequência de separadores (` `, `-`, `.`, `_`) que começa em `from`.
pub open spec fn sep_end(s: Seq<char>, from: int) -> int
    decreases s.len() - from,
{
    if 0 <= from < s.len() && is_mark_sep(s[from]) {
        sep_end(s, from + 1)
    } else {
        from
    }
}

pub proof fn lemma_digit_end(s: Seq<char>, from: int)
    requires
        0 <= from <= s.len(),
    ensures
        from <= digit_end(s, from) <= s.len(),
        all_digits(s.subrange(from, digit_end(s, from))),
    decreases s.len() - from,
{
    if from < s.len() && is_digit(s[from]) {
        lemma_digit_end(s, from + 1);
        let e = digit_end(s, from);
        assert forall|k: int| 0 <= k < e - from implies is_digit(#[trigger] s.subrange(from, e)[k]) by {
            if k > 0 {
                assert(s.subrange(from, e)[k] == s.subrange(from + 1, e)[k - 1]);
            }
        }
    }
}

pub proof fn lemma_sep_end(s: Seq<char>, from: int)
    requires
        0 <= from <= s.len(),
    ensures
        from <= sep_end(s, from) <= s.len(),
    decreases s.len() - from,
{
    if from < s.len() && is_mark_sep(s[from]) {
        lemma_sep_end(s, from + 1);
    }
}

pub proof fn lemma_digit_start(s: Seq<char>, end: int)
    requires
        0 <= end <= s.len(),
    ensures
        0 <= digit_start(s, end) <= end,
    decreases end,
{
    if 0 < end && is_digit(s[end - 1]) {
        lemma_digit_start(s, end - 1);
    }
}

/// Marca `SxxEyy` (com ` `, `-`, `.` ou `_` opcionais entre as partes) que
/// começa em `index`: o `s` abre um token e os dois números cabem em `i64`.
pub open spec fn sxe_at(c: Seq<char>, low: Seq<char>, index: int) -> Option<(i64, i64, Seq<char>)> {
    if !low_is(low, index, 's') || (index > 0 && is_alnum(c[index - 1])) {
        None
    } else {
        let ss = index + 1;
        let se = digit_end(c, ss);
        if se == ss {
            None
        } else {
            match parse_i64(c.subrange(ss, se)) {
                None => None,
                Some(season) => {
                    let sp = sep_end(c, se);
                    if sp >= c.len() || !low_is(low, sp, 'e') {
                        None
                    } else {
                        let es = sp + 1;
                        let ee = digit_end(c, es);
                        if ee == es {
                            None
                        } else {
                            match parse_i64(c.subrange(es, ee)) {
                                None => None,
                                Some(episode) => Some((season, episode, c.take(index))),
                            }
                        }
                    }
                },
            }
        }
    }
}

pub open spec fn first_sxe(c: Seq<char>, low: Seq<char>, from: int) -> Option<(i64, i64, Seq<char>)>
    decreases c.len() - from,
{
    if from < 0 || from >= c.len() {
        None
    } else {
        match sxe_at(c, low, from) {
            Some(r) => Some(r),
            None => first_sxe(c, low, from + 1),
        }
    }
}

/// Marca `NxM` em `index`: dígitos antes e depois do `x`.
pub open spec fn nxm_at(c: Seq<char>, low: Seq<char>, index: int) -> Option<(i64, i64, Seq<char>)> {
    if !low_is(low, index, 'x') || index == 0 {
        None
    } else {
        let before = digit_start(c, index);
        if before == index {
            None
        } else {
            let es = index + 1;
            let ee = digit_end(c, es);
            if ee == es {
                None
            } else {
                match (parse_i64(c.subrange(before, index)), parse_i64(c.subrange(es, ee))) {
                    (Some(season), Some(episode)) => Some((season, episode, c.take(before))),
                    _ => None,
                }
            }
        }
    }
}

pub open spec fn first_nxm(c: Seq<char>, low: Seq<char>, from: int) -> Option<(i64, i64, Seq<char>)>
    decreases c.len() - from,
{
    if from < 0 || from >= c.len() {
        None
    } else {
        match nxm_at(c, low, from) {
            Some(r) => Some(r),
            None => first_nxm(c, low, from + 1),
        }
    }
}

/// Número do token seguinte, quando há.
pub open spec fn next_number(ts: Seq<Seq<char>>, k: int) -> Option<i64> {
    if k + 1 < ts.len() {
        parse_i64(ts[k + 1])
    } else {
        None
    }
}

pub open spec fn min_int(a: int, b: int) -> int {
    if a <= b { a } else { b }
}

/// Temporada, episódio e ponto de corte do título depois de ler os `k`
/// primeiros tokens; a última ocorrência de cada palavra vale.
pub open spec fn words_marks(ts: Seq<Seq<char>>, k: int) -> (Option<i64>, Option<i64>, int)
    decreases k,
{
    if k <= 0 {
        (None, None, ts.len() as int)
    } else {
        let (season, episode, cut) = words_marks(ts, k - 1);
        let i = k - 1;
        let next = next_number(ts, i);
        let (season, cut) = if ts[i] == "temporada"@ && next is Some {
            (next, min_int(cut, i))
        } else {
            (season, cut)
        };
        let (episode, cut) = if (ts[i] == "episodio"@ || ts[i] == "ep"@) && next is Some {
            (next, min_int(cut, i))
        } else {
            (episode, cut)
        };
        (season, episode, cut)
    }
}

/// "Temporada N Episodio M", com ou sem acento: os tokens dobrados mandam, o
/// título sai dos tokens originais (quando as contagens batem).
pub open spec fn words_episode(name: Seq<char>) -> Option<(i64, i64, Seq<char>)> {
    let ts = words(fold(name));
    let raw = words(name);
    let (season, episode, cut) = words_marks(ts, ts.len() as int);
    if season is Some && episode is Some && ts.len() == raw.len() {
        Some((season->0, episode->0, join(raw.take(cut), seq![' '])))
    } else {
        None
    }
}

/// Marca de episódio no nome: `(temporada, episódio, título da série)`.
pub open spec fn series_marks_spec(name: Seq<char>) -> Option<(i64, i64, Seq<char>)> {
    match first_sxe(name, lower(name), 0) {
        Some(r) => Some(r),
        None => match first_nxm(name, lower(name), 0) {
            Some(r) => Some(r),
            None => words_episode(name),
        },
    }
}

fn digit_end_exec(s: &[char], from: usize) -> (r: usize)
    requires
        from <= s@.len(),
    ensures
        r == digit_end(s@, from as int),
{
    let mut i = from;
    while i < s.len() && ascii_digit(s[i])
        invariant
            from <= i <= s@.len(),
            digit_end(s@, from as int) == digit_end(s@, i as int),
        decreases s@.len() - i,
    {
        i += 1;
    }
    i
}

fn sep_end_exec(s: &[char], from: usize) -> (r: usize)
    requires
        from <= s@.len(),
    ensures
        r == sep_end(s@, from as int),
{
    let mut i = from;
    while i < s.len() && (s[i] == ' ' || s[i] == '-' || s[i] == '.' || s[i] == '_')
        invariant
            from <= i <= s@.len(),
            sep_end(s@, from as int) == sep_end(s@, i as int),
        decreases s@.len() - i,
    {
        i += 1;
    }
    i
}

fn digit_start_exec(s: &[char], end: usize) -> (r: usize)
    requires
        end <= s@.len(),
    ensures
        r == digit_start(s@, end as int),
{
    let mut i = end;
    while i > 0 && ascii_digit(s[i - 1])
        invariant
            i <= end <= s@.len(),
            digit_start(s@, end as int) == digit_start(s@, i as int),
        decreases i,
    {
        i -= 1;
    }
    i
}

fn low_is_exec(low: &[char], i: usize, c: char) -> (b: bool)
    ensures
        b == low_is(low@, i as int, c),
{
    i < low.len() && low[i] == c
}

fn sxe_at_exec(c: &[char], low: &[char], index: usize) -> (r: Option<(i64, i64, Vec<char>)>)
    requires
        index < c@.len(),
    ensures
        match r {
            Some((s, e, h)) => sxe_at(c@, low@, index as int) == Some((s, e, h@)),
            None => sxe_at(c@, low@, index as int) == None::<(i64, i64, Seq<char>)>,
        },
{
    if !low_is_exec(low, index, 's') {
        return None;
    }
    if index > 0 && char_is_alphanumeric(c[index - 1]) {
        return None;
    }
    let ss = index + 1;
    let se = digit_end_exec(c, ss);
    proof { lemma_digit_end(c@, ss as int); }
    if se == ss {
        return None;
    }
    let season = match parse_i64_chars(c, ss, se) {
        Some(v) => v,
        None => return None,
    };
    let sp = sep_end_exec(c, se);
    proof { lemma_sep_end(c@, se as int); }
    if sp >= c.len() || !low_is_exec(low, sp, 'e') {
        return None;
    }
    let es = sp + 1;
    let ee = digit_end_exec(c, es);
    proof { lemma_digit_end(c@, es as int); }
    if ee == es {
        return None;
    }
    let episode = match parse_i64_chars(c, es, ee) {
        Some(v) => v,
        None => return None,
    };
    let head = slice_chars(c, 0, index);
    assert(head@ =~= c@.take(index as int));
    Some((season, episode, head))
}

fn nxm_at_exec(c: &[char], low: &[char], index: usize) -> (r: Option<(i64, i64, Vec<char>)>)
    requires
        index < c@.len(),
    ensures
        match r {
            Some((s, e, h)) => nxm_at(c@, low@, index as int) == Some((s, e, h@)),
            None => nxm_at(c@, low@, index as int) == None::<(i64, i64, Seq<char>)>,
        },
{
    let n = c.len();
    if !low_is_exec(low, index, 'x') || index == 0 {
        return None;
    }
    let before = digit_start_exec(c, index);
    proof { lemma_digit_start(c@, index as int); }
    if before == index {
        return None;
    }
    let es = index + 1;
    let ee = digit_end_exec(c, es);
    proof { lemma_digit_end(c@, es as int); }
    if ee == es {
        return None;
    }
    let season = parse_i64_chars(c, before, index);
    let episode = parse_i64_chars(c, es, ee);
    match (season, episode) {
        (Some(s), Some(e)) => {
            let head = slice_chars(c, 0, before);
            assert(head@ =~= c@.take(before as int));
            Some((s, e, head))
        },
        _ => None,
    }
}

fn words_episode_exec(name: &str) -> (r: Option<(i64, i64, Vec<char>)>)
    ensures
        match r {
            Some((s, e, h)) => words_episode(name@) == Some((s, e, h@)),
            None => words_episode(name@) == None::<(i64, i64, Seq<char>)>,
        },
{
    let folded = fold_str(name);
    let tokens = words_of(folded.as_slice());
    let name_chars = chars_of(name);
    let raw = words_of(name_chars.as_slice());
    let ghost ts = tokens.deep_view();
    let n = tokens.len();
    let mut season: Option<i64> = None;
    let mut episode: Option<i64> = None;
    let mut cut: usize = n;
    let mut k: usize = 0;
    while k < n
        invariant
            k <= n == tokens@.len(),
            ts == tokens.deep_view(),
            cut <= n,
            words_marks(ts, k as int) == (season, episode, cut as int),
        decreases n - k,
    {
        assert(ts[k as int] == tokens@[k as int]@);
        let next = if k + 1 < n {
            assert(ts[k + 1] == tokens@[k + 1]@);
            assert(tokens@[k + 1]@.subrange(0, tokens@[k + 1]@.len() as int) =~= tokens@[k + 1]@);
            parse_i64_chars(tokens[k + 1].as_slice(), 0, tokens[k + 1].len())
        } else {
            None
        };
        assert(next == next_number(ts, k as int));
        if eq_lit(tokens[k].as_slice(), "temporada") && next.is_some() {
            season = next;
            if k < cut {
                cut = k;
            }
        }
        if (eq_lit(tokens[k].as_slice(), "episodio") || eq_lit(tokens[k].as_slice(), "ep"))
            && next.is_some() {
            episode = next;
            if k < cut {
                cut = k;
            }
        }
        k += 1;
    }
    assert(ts == words(fold(name@)));
    match (season, episode) {
        (Some(s), Some(e)) => {
            if n == raw.len() {
                let mut head: Vec<Vec<char>> = Vec::new();
                let mut i: usize = 0;
                let ghost rs = raw.deep_view();
                while i < cut
                    invariant
                        i <= cut <= n == raw@.len(),
                        rs == raw.deep_view(),
                        head.deep_view() == rs.take(i as int),
                    decreases cut - i,
                {
                    let t = slice_chars(raw[i].as_slice(), 0, raw[i].len());
                    assert(t@ =~= raw@[i as int]@);
                    let ghost before = head.deep_view();
                    proof { lemma_deep_view_chars(&t); }
                    head.push(t);
                    assert(rs[i as int] == raw@[i as int]@);
                    assert(head.deep_view() =~= before.push(rs[i as int]));
                    assert(head.deep_view() =~= rs.take(i + 1));
                    i += 1;
                }
                Some((s, e, join_space(&head)))
            } else {
                None
            }
        },
        _ => None,
    }
}

fn series_marks(name: &str) -> (r: Option<(i64, i64, Vec<char>)>)
    ensures
        match r {
            Some((s, e, h)) => series_marks_spec(name@) == Some((s, e, h@)),
            None => series_marks_spec(name@) == None::<(i64, i64, Seq<char>)>,
        },
{
    let chars = chars_of(name);
    let lowered = to_lowercase(name);
    let low = chars_of(lowered.as_str());
    let n = chars.len();

    // Padrão SxxEyy, com ou sem separador.
    let mut index: usize = 0;
    while index < n
        invariant
            index <= n == chars@.len(),
            chars@ == name@,
            low@ == lower(name@),
            first_sxe(chars@, low@, 0) == first_sxe(chars@, low@, index as int),
        decreases n - index,
    {
        match sxe_at_exec(chars.as_slice(), low.as_slice(), index) {
            Some(found) => return Some(found),
            None => {},
        }
        index += 1;
    }

    // Padrão NxM.
    let mut index: usize = 0;
    while index < n
        invariant
            index <= n == chars@.len(),
            chars@ == name@,
            low@ == lower(name@),
            first_sxe(chars@, low@, 0) == None::<(i64, i64, Seq<char>)>,
            first_nxm(chars@, low@, 0) == first_nxm(chars@, low@, index as int),
        decreases n - index,
    {
        match nxm_at_exec(chars.as_slice(), low.as_slice(), index) {
            Some(found) => return Some(found),
            None => {},
        }
        index += 1;
    }

    words_episode_exec(name)
}


// ---------------------------------------------------------------- canal

pub open spec fn is_channel_word(t: Seq<char>) -> bool {
    t == "canais"@ || t == "canal"@ || t == "tv"@ || t == "live"@ || t == "abertos"@
}

pub open spec fn any_channel_word(ts: Seq<Seq<char>>) -> bool {
    exists|i: int| 0 <= i < ts.len() && is_channel_word(#[trigger] ts[i])
}

/// Atributos de EPG, ou grupo de canal: palavra inteira ("tv", "canais", ...)
/// ou "ao vivo" no grupo normalizado.
pub open spec fn looks_like_channel_spec(attrs: Seq<(Seq<char>, Seq<char>)>, group: Option<Seq<char>>) -> bool {
    ||| attr_lookup(attrs, "tvg-id"@) is Some
    ||| attr_lookup(attrs, "tvg-chno"@) is Some
    ||| match group {
        Some(g) => any_channel_word(words(normalize_spec(g))) || contains_seq(
            normalize_spec(g),
            "ao vivo"@,
        ),
        None => false,
    }
}

fn looks_like_channel(attrs: &Attrs, group: Option<&[char]>) -> (b: bool)
    ensures
        b == looks_like_channel_spec(attrs_view(attrs@), match group {
            Some(g) => Some(g@),
            None => None,
        }),
{
    if attr(attrs, "tvg-id").is_some() || attr(attrs, "tvg-chno").is_some() {
        return true;
    }
    let g = match group {
        Some(g) => g,
        None => return false,
    };
    let gtext = string_of(g);
    let normalized = normalize(gtext.as_str());
    let folded = chars_of(normalized.as_str());
    let tokens = words_of(folded.as_slice());
    let ghost ts = tokens.deep_view();
    let mut i: usize = 0;
    while i < tokens.len()
        invariant
            i <= tokens@.len(),
            ts == tokens.deep_view(),
            ts == words(normalize_spec(g@)),
            folded@ == normalize_spec(g@),
            group == Some(g),
            attr_lookup(attrs_view(attrs@), "tvg-id"@) is None,
            attr_lookup(attrs_view(attrs@), "tvg-chno"@) is None,
            forall|k: int| 0 <= k < i ==> !is_channel_word(#[trigger] ts[k]),
        decreases tokens@.len() - i,
    {
        assert(ts[i as int] == tokens@[i as int]@);
        let t = tokens[i].as_slice();
        if eq_lit(t, "canais") || eq_lit(t, "canal") || eq_lit(t, "tv") || eq_lit(t, "live")
            || eq_lit(t, "abertos") {
            assert(is_channel_word(ts[i as int]));
            assert(any_channel_word(ts));
            return true;
        }
        i += 1;
    }
    contains_lit(folded.as_slice(), "ao vivo")
}

// ---------------------------------------------------------------- entrada

#[derive(Clone, Copy, Debug, PartialEq, Eq, Structural)]
pub enum EntryKind {
    Movie,
    Series,
    Channel,
}

pub open spec fn kind_text(kind: EntryKind) -> Seq<char> {
    match kind {
        EntryKind::Movie => "movie"@,
        EntryKind::Series => "series"@,
        EntryKind::Channel => "channel"@,
    }
}

impl EntryKind {
    pub fn as_str(self) -> (r: &'static str)
        ensures
            r@ == kind_text(self),
    {
        match self {
            EntryKind::Movie => "movie",
            EntryKind::Series => "series",
            EntryKind::Channel => "channel",
        }
    }
}

#[derive(Clone, Debug)]
pub struct Entry {
    pub kind: EntryKind,
    pub title: String,
    pub title_norm: String,
    pub year: Option<i64>,
    pub season: Option<i64>,
    pub episode: Option<i64>,
    pub episode_title: Option<String>,
    pub logo: Option<String>,
    pub group_name: Option<String>,
    pub quality: Option<String>,
    pub channel_number: Option<i64>,
    /// "Dublado" ou "Legendado", quando a lista marca. `ids::normalize` joga
    /// essas marcas fora ao montar o título — de propósito, para que as duas
    /// versões caiam no mesmo item — então o rótulo tem que ser guardado aqui
    /// ou não há como distinguir os dois streams depois.
    pub variant: Option<String>,
    pub url: String,
}

/// O que uma `Entry` diz, em valores matemáticos.
pub struct EntryView {
    pub kind: EntryKind,
    pub title: Seq<char>,
    pub title_norm: Seq<char>,
    pub year: Option<i64>,
    pub season: Option<i64>,
    pub episode: Option<i64>,
    pub episode_title: Option<Seq<char>>,
    pub logo: Option<Seq<char>>,
    pub group_name: Option<Seq<char>>,
    pub quality: Option<Seq<char>>,
    pub channel_number: Option<i64>,
    pub variant: Option<Seq<char>>,
    pub url: Seq<char>,
}

pub open spec fn opt_text(o: Option<String>) -> Option<Seq<char>> {
    match o {
        Some(s) => Some(s@),
        None => None,
    }
}

impl View for Entry {
    type V = EntryView;

    open spec fn view(&self) -> EntryView {
        EntryView {
            kind: self.kind,
            title: self.title@,
            title_norm: self.title_norm@,
            year: self.year,
            season: self.season,
            episode: self.episode,
            episode_title: opt_text(self.episode_title),
            logo: opt_text(self.logo),
            group_name: opt_text(self.group_name),
            quality: opt_text(self.quality),
            channel_number: self.channel_number,
            variant: opt_text(self.variant),
            url: self.url@,
        }
    }
}

/// Id do título de uma entrada — para série, o id da série.
pub open spec fn entry_item_id(e: EntryView) -> Seq<char> {
    digest_spec(item_key(kind_text(e.kind), e.title_norm, e.year))
}

/// Id do episódio, quando a entrada tem temporada e episódio.
pub open spec fn entry_episode_id(e: EntryView) -> Option<Seq<char>> {
    match (e.season, e.episode) {
        (Some(season), Some(episode)) => Some(
            digest_spec(episode_key(entry_item_id(e), season, episode)),
        ),
        _ => None,
    }
}

impl Entry {
    /// Id do título ao qual esta linha pertence — para série, o id da série.
    pub fn item_id(&self) -> (r: String)
        ensures
            r@ == entry_item_id(self@),
            crate::ids::is_id_text(r@),
    {
        crate::ids::item_id(self.kind.as_str(), self.title_norm.as_str(), self.year)
    }

    /// Id do episódio, quando a linha é de série com temporada e episódio.
    pub fn episode_id(&self) -> (r: Option<String>)
        ensures
            opt_text(r) == entry_episode_id(self@),
    {
        match (self.season, self.episode) {
            (Some(season), Some(episode)) => {
                let series = self.item_id();
                Some(crate::ids::episode_id(series.as_str(), season, episode))
            },
            _ => None,
        }
    }
}

/// Classificação de uma linha, primeira regra que casa vence:
/// 1. marca de episódio no nome (já sem qualidade) → série;
/// 2. atributos de EPG ou grupo de canal → canal;
/// 3. o resto → filme, com o ano tirado do nome.
pub open spec fn build_spec(attrs: Seq<(Seq<char>, Seq<char>)>, name: Seq<char>, url: Seq<char>) -> EntryView {
    let logo = attr_lookup(attrs, "tvg-logo"@);
    let group = attr_lookup(attrs, "group-title"@);
    let chno = match attr_lookup(attrs, "tvg-chno"@) {
        Some(v) => parse_i64(v),
        None => None,
    };
    let (quality, clean) = strip_quality_spec(name);
    let variant = detect_variant_spec(name, group);
    match series_marks_spec(clean) {
        Some((season, episode, head)) => {
            let title = trim(extract_year_spec(head).1);
            EntryView {
                kind: EntryKind::Series,
                title,
                title_norm: normalize_spec(title),
                year: None,
                season: Some(season),
                episode: Some(episode),
                episode_title: None,
                logo,
                group_name: group,
                quality,
                channel_number: None,
                variant,
                url,
            }
        },
        None => if looks_like_channel_spec(attrs, group) {
            let title = trim(clean);
            EntryView {
                kind: EntryKind::Channel,
                title,
                title_norm: normalize_spec(title),
                year: None,
                season: None,
                episode: None,
                episode_title: None,
                logo,
                group_name: group,
                quality,
                channel_number: chno,
                variant,
                url,
            }
        } else {
            let (year, rest) = extract_year_spec(clean);
            let title = trim(rest);
            EntryView {
                kind: EntryKind::Movie,
                title,
                title_norm: normalize_spec(title),
                year,
                season: None,
                episode: None,
                episode_title: None,
                logo,
                group_name: group,
                quality,
                channel_number: None,
                variant,
                url,
            }
        },
    }
}

fn opt_string(o: Option<Vec<char>>) -> (r: Option<String>)
    ensures
        opt_text(r) == match o {
            Some(v) => Some(v@),
            None => None::<Seq<char>>,
        },
{
    match o {
        Some(v) => Some(string_of(v.as_slice())),
        None => None,
    }
}

fn build(attrs: Attrs, name: Vec<char>, url: Vec<char>) -> (e: Entry)
    ensures
        e@ == build_spec(attrs_view(attrs@), name@, url@),
{
    let logo = opt_string(attr(&attrs, "tvg-logo"));
    let group_chars = attr(&attrs, "group-title");
    let chno = match attr(&attrs, "tvg-chno") {
        Some(v) => {
            assert(v@.subrange(0, v@.len() as int) =~= v@);
            parse_i64_chars(v.as_slice(), 0, v.len())
        },
        None => None,
    };
    let name_text = string_of(name.as_slice());
    let url_text = string_of(url.as_slice());

    // Tokens de qualidade podem aparecer antes ou depois da marca de episódio,
    // então são removidos do nome inteiro antes de procurar a marca.
    let (quality_chars, clean) = strip_quality(name.as_slice());
    let quality = opt_string(quality_chars);
    let group_text = match &group_chars {
        Some(g) => Some(string_of(g.as_slice())),
        None => None,
    };
    let variant = match &group_text {
        Some(g) => detect_variant(name_text.as_str(), Some(g.as_str())),
        None => detect_variant(name_text.as_str(), None),
    };
    let clean_text = string_of(clean.as_slice());

    // Regra 1: marca de episódio manda, mesmo em grupo de canal.
    if let Some((season, episode, head)) = series_marks(clean_text.as_str()) {
        let (_, without_year) = extract_year(head.as_slice());
        let title_chars = trim_chars(without_year.as_slice());
        let title = string_of(title_chars.as_slice());
        let title_norm = normalize(title.as_str());
        return Entry {
            kind: EntryKind::Series,
            title,
            title_norm,
            year: None,
            season: Some(season),
            episode: Some(episode),
            episode_title: None,
            logo,
            group_name: group_text,
            quality,
            channel_number: None,
            variant,
            url: url_text,
        };
    }

    // Regra 2: atributos de EPG ou grupo de canal.
    let channel = match &group_chars {
        Some(g) => looks_like_channel(&attrs, Some(g.as_slice())),
        None => looks_like_channel(&attrs, None),
    };
    if channel {
        let title_chars = trim_chars(clean.as_slice());
        let title = string_of(title_chars.as_slice());
        let title_norm = normalize(title.as_str());
        return Entry {
            kind: EntryKind::Channel,
            title,
            title_norm,
            year: None,
            season: None,
            episode: None,
            episode_title: None,
            logo,
            group_name: group_text,
            quality,
            channel_number: chno,
            variant,
            url: url_text,
        };
    }

    // Regra 3: filme.
    let (year, rest) = extract_year(clean.as_slice());
    let title_chars = trim_chars(rest.as_slice());
    let title = string_of(title_chars.as_slice());
    let title_norm = normalize(title.as_str());
    Entry {
        kind: EntryKind::Movie,
        title,
        title_norm,
        year,
        season: None,
        episode: None,
        episode_title: None,
        logo,
        group_name: group_text,
        quality,
        channel_number: None,
        variant,
        url: url_text,
    }
}


// ---------------------------------------------------------------- parser

#[derive(Clone, Copy, Debug, PartialEq, Eq, Structural)]
pub struct Outcome {
    pub parsed: usize,
    pub discarded: usize,
}

impl Default for Outcome {
    fn default() -> (r: Self)
        ensures
            r.parsed == 0 && r.discarded == 0,
    {
        Outcome { parsed: 0, discarded: 0 }
    }
}

/// O `#EXTINF` mais recente, ainda esperando a URL da linha seguinte.
pub enum PendingView {
    /// Nenhum `#EXTINF` em aberto.
    Idle,
    /// `#EXTINF` bem formado, esperando URL.
    Ready(Seq<(Seq<char>, Seq<char>)>, Seq<char>),
    /// `#EXTINF` malformado — já contado como descarte; a próxima linha de
    /// conteúdo pertence a ele e é só ignorada.
    Broken,
}

pub struct ParseState {
    pub pending: PendingView,
    pub parsed: nat,
    pub discarded: nat,
}

pub open spec fn initial_state() -> ParseState {
    ParseState { pending: PendingView::Idle, parsed: 0, discarded: 0 }
}

pub open spec fn ready_count(p: PendingView) -> nat {
    if p is Ready { 1 } else { 0 }
}

/// Contadores mais o `#EXTINF` em aberto: nunca passa do número de linhas lidas.
pub open spec fn load(st: ParseState) -> nat {
    st.parsed + st.discarded + ready_count(st.pending)
}

/// Uma linha lida (`None` quando a leitura dela falhou): o novo estado e a
/// entrada que ela completa, se completa alguma.
pub open spec fn step(st: ParseState, line: Option<Seq<char>>) -> (ParseState, Option<EntryView>) {
    match line {
        None => (ParseState { discarded: st.discarded + 1, ..st }, None),
        Some(raw) => {
            let l = trim(raw);
            if l.len() == 0 {
                (st, None)
            } else if extinf_prefix().len() <= l.len() && l.take(extinf_prefix().len() as int) == extinf_prefix() {
                // O #EXTINF anterior ficou sem URL.
                let d = st.discarded + ready_count(st.pending);
                match split_extinf_spec(l) {
                    Some((attrs, name)) => (
                        ParseState { pending: PendingView::Ready(attrs, name), parsed: st.parsed, discarded: d },
                        None,
                    ),
                    None => (
                        ParseState { pending: PendingView::Broken, parsed: st.parsed, discarded: d + 1 },
                        None,
                    ),
                }
            } else if l[0] == '#' {
                // #EXTM3U, #EXTVLCOPT, #EXTGRP e afins
                (st, None)
            } else {
                match st.pending {
                    PendingView::Ready(attrs, name) => (
                        ParseState { pending: PendingView::Idle, parsed: st.parsed + 1, discarded: st.discarded },
                        Some(build_spec(attrs, name, l)),
                    ),
                    PendingView::Broken => (ParseState { pending: PendingView::Idle, ..st }, None),
                    // URL órfã
                    PendingView::Idle => (
                        ParseState { pending: PendingView::Idle, parsed: st.parsed, discarded: st.discarded + 1 },
                        None,
                    ),
                }
            }
        },
    }
}

/// Estado e entradas depois de ler as linhas, na ordem.
pub open spec fn run(ls: Seq<Option<Seq<char>>>) -> (ParseState, Seq<EntryView>)
    decreases ls.len(),
{
    if ls.len() == 0 {
        (initial_state(), seq![])
    } else {
        let (st, es) = run(ls.drop_last());
        let (next, e) = step(st, ls.last());
        (next, match e {
            Some(e) => es.push(e),
            None => es,
        })
    }
}

/// Contagem final: um `#EXTINF` ainda em aberto no fim é descarte.
pub open spec fn final_outcome(st: ParseState) -> (nat, nat) {
    (st.parsed, st.discarded + ready_count(st.pending))
}

pub open spec fn entries_view(v: Seq<Entry>) -> Seq<EntryView> {
    Seq::new(v.len(), |i: int| v[i]@)
}

enum Pending {
    Idle,
    Ready(Attrs, Vec<char>),
    Broken,
}

/// Parser de uma linha por vez: guarda só o `#EXTINF` em aberto e os contadores.
pub struct Parser {
    pending: Pending,
    parsed: usize,
    discarded: usize,
}

impl View for Parser {
    type V = ParseState;

    closed spec fn view(&self) -> ParseState {
        ParseState {
            pending: match self.pending {
                Pending::Idle => PendingView::Idle,
                Pending::Ready(attrs, name) => PendingView::Ready(attrs_view(attrs@), name@),
                Pending::Broken => PendingView::Broken,
            },
            parsed: self.parsed as nat,
            discarded: self.discarded as nat,
        }
    }
}

impl Parser {
    pub fn new() -> (p: Parser)
        ensures
            p@ == initial_state(),
    {
        Parser { pending: Pending::Idle, parsed: 0, discarded: 0 }
    }

    /// Lê uma linha; `None` é uma linha que não pôde ser lida.
    pub fn feed(&mut self, line: Option<&str>) -> (r: Option<Entry>)
        requires
            load(old(self)@) < usize::MAX,
        ensures
            (final(self)@, match r {
                Some(e) => Some(e@),
                None => None::<EntryView>,
            }) == step(old(self)@, match line {
                Some(l) => Some(l@),
                None => None::<Seq<char>>,
            }),
            load(final(self)@) <= load(old(self)@) + 1,
    {
        match line {
            Some(l) => {
                let v = chars_of(l);
                self.feed_chars(Some(v.as_slice()))
            },
            None => self.feed_chars(None),
        }
    }

    fn feed_chars(&mut self, line: Option<&[char]>) -> (r: Option<Entry>)
        requires
            load(old(self)@) < usize::MAX,
        ensures
            (final(self)@, match r {
                Some(e) => Some(e@),
                None => None::<EntryView>,
            }) == step(old(self)@, match line {
                Some(l) => Some(l@),
                None => None::<Seq<char>>,
            }),
            load(final(self)@) <= load(old(self)@) + 1,
    {
        let raw = match line {
            Some(raw) => raw,
            None => {
                self.discarded += 1;
                return None;
            },
        };
        let l = trim_chars(raw);
        if l.len() == 0 {
            return None;
        }
        if starts_with_lit(l.as_slice(), "#EXTINF:") {
            if matches!(self.pending, Pending::Ready(..)) {
                self.discarded += 1;
            }
            match split_extinf(l.as_slice()) {
                Some((attrs, name)) => {
                    self.pending = Pending::Ready(attrs, name);
                },
                None => {
                    self.discarded += 1;
                    self.pending = Pending::Broken;
                },
            }
            return None;
        }
        if l[0] == '#' {
            return None;
        }
        let mut pending = Pending::Idle;
        std::mem::swap(&mut pending, &mut self.pending);
        match pending {
            Pending::Ready(attrs, name) => {
                self.parsed += 1;
                Some(build(attrs, name, l))
            },
            Pending::Broken => None,
            Pending::Idle => {
                self.discarded += 1;
                None
            },
        }
    }

    /// Contagem final: um `#EXTINF` sem URL no fim da lista é descarte.
    /// Entradas completas até aqui.
    pub fn parsed(&self) -> (n: usize)
        ensures
            n == self@.parsed,
    {
        self.parsed
    }

    pub fn finish(&self) -> (o: Outcome)
        requires
            load(self@) <= usize::MAX,
        ensures
            (o.parsed as nat, o.discarded as nat) == final_outcome(self@),
    {
        let extra: usize = if matches!(self.pending, Pending::Ready(..)) { 1 } else { 0 };
        Outcome { parsed: self.parsed, discarded: self.discarded + extra }
    }
}

/// Lê as linhas na ordem (`None` é uma linha ilegível) e devolve as entradas
/// completas e a contagem.
pub fn parse_each(lines: &[Option<String>]) -> (r: (Vec<Entry>, Outcome))
    ensures
        entries_view(r.0@) == run(lines@.map_values(|l: Option<String>| opt_text(l))).1,
        (r.1.parsed as nat, r.1.discarded as nat) == final_outcome(
            run(lines@.map_values(|l: Option<String>| opt_text(l))).0,
        ),
{
    let ghost ls = lines@.map_values(|l: Option<String>| opt_text(l));
    let mut parser = Parser::new();
    let mut entries: Vec<Entry> = Vec::new();
    let mut i: usize = 0;
    while i < lines.len()
        invariant
            i <= lines@.len() == ls.len(),
            ls == lines@.map_values(|l: Option<String>| opt_text(l)),
            (parser@, entries_view(entries@)) == run(ls.take(i as int)),
            load(parser@) <= i,
        decreases lines@.len() - i,
    {
        assert(ls.take(i + 1).drop_last() =~= ls.take(i as int));
        let line: Option<&str> = match &lines[i] {
            Some(s) => Some(s.as_str()),
            None => None,
        };
        assert(ls.take(i + 1).last() == match line {
            Some(l) => Some(l@),
            None => None::<Seq<char>>,
        });
        let ghost before = entries_view(entries@);
        match parser.feed(line) {
            Some(entry) => {
                entries.push(entry);
                assert(entries_view(entries@) =~= before.push(entry@));
            },
            None => {},
        }
        i += 1;
    }
    assert(ls.take(lines@.len() as int) =~= ls);
    let outcome = parser.finish();
    (entries, outcome)
}

/// O texto inteiro de uma lista, linha a linha (`str::lines`).
pub fn parse_all(text: &str) -> (r: (Vec<Entry>, Outcome))
    ensures
        entries_view(r.0@) == run(lines(text@).map_values(|l: Seq<char>| Some(l))).1,
        (r.1.parsed as nat, r.1.discarded as nat) == final_outcome(
            run(lines(text@).map_values(|l: Seq<char>| Some(l))).0,
        ),
{
    let chars = chars_of(text);
    let all = lines_of(chars.as_slice());
    let ghost ls = lines(text@).map_values(|l: Seq<char>| Some(l));
    let mut parser = Parser::new();
    let mut entries: Vec<Entry> = Vec::new();
    let mut i: usize = 0;
    while i < all.len()
        invariant
            i <= all@.len() == ls.len(),
            all.deep_view() == lines(text@),
            ls == lines(text@).map_values(|l: Seq<char>| Some(l)),
            (parser@, entries_view(entries@)) == run(ls.take(i as int)),
            load(parser@) <= i,
        decreases all@.len() - i,
    {
        assert(ls.take(i + 1).drop_last() =~= ls.take(i as int));
        assert(all.deep_view()[i as int] == all@[i as int]@);
        let ghost before = entries_view(entries@);
        match parser.feed_chars(Some(all[i].as_slice())) {
            Some(entry) => {
                entries.push(entry);
                assert(entries_view(entries@) =~= before.push(entry@));
            },
            None => {},
        }
        i += 1;
    }
    assert(ls.take(all@.len() as int) =~= ls);
    let outcome = parser.finish();
    (entries, outcome)
}


// ---------------------------------------------------------------- leis

/// Campos coerentes com o tipo: série tem temporada e episódio, só filme tem
/// ano, só canal tem número; `title_norm` é o título normalizado.
pub open spec fn coherent(e: EntryView) -> bool {
    &&& e.title_norm == normalize_spec(e.title)
    &&& (e.kind == EntryKind::Series <==> (e.season is Some && e.episode is Some))
    &&& (e.kind != EntryKind::Series ==> e.season is None && e.episode is None)
    &&& (e.kind != EntryKind::Movie ==> e.year is None)
    &&& (e.kind != EntryKind::Channel ==> e.channel_number is None)
    &&& e.episode_title is None
}

/// O que vale de toda entrada que o parser entrega: coerente, e com uma URL de
/// verdade (linha de conteúdo, não comentário).
pub open spec fn well_formed(e: EntryView) -> bool {
    &&& coherent(e)
    &&& e.url.len() > 0
    &&& e.url[0] != '#'
}

/// Toda entrada montada é coerente, seja qual for a URL: série tem temporada e
/// episódio, só filme tem ano, só canal tem número, e `title_norm` é o título
/// normalizado. Montada de uma linha de conteúdo, ela é bem formada.
pub proof fn law_build_well_formed(attrs: Seq<(Seq<char>, Seq<char>)>, name: Seq<char>, url: Seq<char>)
    ensures
        coherent(build_spec(attrs, name, url)),
        url.len() > 0 && url[0] != '#' ==> well_formed(build_spec(attrs, name, url)),
{
}

/// Marca de episódio manda: quando o nome sem qualidade tem uma, a entrada é
/// série, quaisquer que sejam os atributos de canal.
pub proof fn law_episode_mark_wins(attrs: Seq<(Seq<char>, Seq<char>)>, name: Seq<char>, url: Seq<char>)
    requires
        series_marks_spec(strip_quality_spec(name).1) is Some,
    ensures
        build_spec(attrs, name, url).kind == EntryKind::Series,
{
}

/// Ordem de decisão do tipo, a primeira que casa vence: marca de episódio é
/// série; senão atributo de EPG (`tvg-id`, `tvg-chno`) ou grupo de canal ao
/// vivo é canal; o resto é filme.
pub proof fn law_classification_order(attrs: Seq<(Seq<char>, Seq<char>)>, name: Seq<char>, url: Seq<char>)
    ensures
        build_spec(attrs, name, url).kind == (if series_marks_spec(strip_quality_spec(name).1) is Some {
            EntryKind::Series
        } else if looks_like_channel_spec(attrs, attr_lookup(attrs, "group-title"@)) {
            EntryKind::Channel
        } else {
            EntryKind::Movie
        }),
        series_marks_spec(strip_quality_spec(name).1) is None && (attr_lookup(attrs, "tvg-id"@) is Some
            || attr_lookup(attrs, "tvg-chno"@) is Some) ==> build_spec(attrs, name, url).kind == EntryKind::Channel,
{
}

/// Cada entrada entregue é contada em `parsed`, e entrada e descarte juntos
/// nunca passam do número de linhas lidas (com o `#EXTINF` em aberto).
pub proof fn law_run_counts(ls: Seq<Option<Seq<char>>>)
    ensures
        run(ls).1.len() == run(ls).0.parsed,
        load(run(ls).0) <= ls.len(),
        forall|i: int| 0 <= i < run(ls).1.len() ==> well_formed(#[trigger] run(ls).1[i]),
    decreases ls.len(),
{
    if ls.len() > 0 {
        law_run_counts(ls.drop_last());
        let (st, es) = run(ls.drop_last());
        let line = ls.last();
        match line {
            Some(raw) => {
                let l = trim(raw);
                if l.len() > 0 && !(extinf_prefix().len() <= l.len() && l.take(extinf_prefix().len() as int) == extinf_prefix()) && l[0] != '#' {
                    if let PendingView::Ready(attrs, name) = st.pending {
                        law_build_well_formed(attrs, name, l);
                    }
                }
            },
            None => {},
        }
        let (_, e) = step(st, line);
        match e {
            Some(x) => {
                assert forall|i: int| 0 <= i < run(ls).1.len() implies well_formed(#[trigger] run(ls).1[i]) by {
                    if i < es.len() {
                        assert(run(ls).1[i] == es[i]);
                    }
                }
            },
            None => {},
        }
    }
}

/// Uma linha ruim não derruba a lista: seja o que for que veio antes (linhas
/// ilegíveis, `#EXTINF` sem vírgula ou sem URL, URL órfã), um `#EXTINF` bem
/// formado seguido da sua URL entra como a próxima entrada.
pub proof fn law_bad_lines_do_not_stop(ls: Seq<Option<Seq<char>>>, extinf: Seq<char>, url: Seq<char>)
    requires
        extinf_prefix().len() <= trim(extinf).len(),
        trim(extinf).take(extinf_prefix().len() as int) == extinf_prefix(),
        split_extinf_spec(trim(extinf)) is Some,
        trim(url).len() > 0,
        trim(url)[0] != '#',
    ensures
        ({
            let (attrs, name) = split_extinf_spec(trim(extinf))->0;
            &&& run(ls + seq![Some(extinf), Some(url)]).1 == run(ls).1.push(build_spec(attrs, name, trim(url)))
            &&& run(ls + seq![Some(extinf), Some(url)]).0.parsed == run(ls).0.parsed + 1
            &&& run(ls + seq![Some(extinf), Some(url)]).0.pending == PendingView::Idle
        }),
{
    let one = ls + seq![Some(extinf)];
    let two = ls + seq![Some(extinf), Some(url)];
    assert(one.drop_last() =~= ls);
    assert(one.last() == Some(extinf));
    assert(two.drop_last() =~= one);
    assert(two.last() == Some(url));
    let url_t = trim(url);
    assert(!(extinf_prefix().len() <= url_t.len() && url_t.take(extinf_prefix().len() as int) == extinf_prefix())) by {
        reveal_strlit("#EXTINF:");
        if extinf_prefix().len() <= url_t.len() && url_t.take(extinf_prefix().len() as int) == extinf_prefix() {
            assert(url_t.take(extinf_prefix().len() as int)[0] == url_t[0]);
        }
    }
    let (attrs, name) = split_extinf_spec(trim(extinf))->0;
    let (st0, es0) = run(ls);
    let (st1, e1) = step(st0, Some(extinf));
    assert(e1 is None);
    assert(st1.pending == PendingView::Ready(attrs, name));
    assert(st1.parsed == st0.parsed);
    assert(run(one) == (st1, es0));
    let (st2, e2) = step(st1, Some(url));
    assert(e2 == Some(build_spec(attrs, name, url_t)));
    assert(run(two) == (st2, es0.push(build_spec(attrs, name, url_t))));
}

/// Uma entrada guarda a URL lida, o logo e o grupo dos atributos (vazio conta
/// como ausente), e um título já aparado, cujo `title_norm` é o título
/// normalizado: montar de novo a partir do título não muda nada.
pub proof fn law_build_keeps_fields(attrs: Seq<(Seq<char>, Seq<char>)>, name: Seq<char>, url: Seq<char>)
    ensures
        build_spec(attrs, name, url).url == url,
        build_spec(attrs, name, url).logo == attr_lookup(attrs, "tvg-logo"@),
        build_spec(attrs, name, url).group_name == attr_lookup(attrs, "group-title"@),
        trim(build_spec(attrs, name, url).title) == build_spec(attrs, name, url).title,
        build_spec(attrs, name, url).title_norm == normalize_spec(build_spec(attrs, name, url).title),
        build_spec(attrs, name, url).episode_title is None,
{
    let (quality, clean) = strip_quality_spec(name);
    match series_marks_spec(clean) {
        Some((season, episode, head)) => lemma_trim_idempotent(extract_year_spec(head).1),
        None => if looks_like_channel_spec(attrs, attr_lookup(attrs, "group-title"@)) {
            lemma_trim_idempotent(clean);
        } else {
            lemma_trim_idempotent(extract_year_spec(clean).1);
        },
    }
}

/// O parser entrega na ordem da entrada e em streaming: as entradas de um
/// começo das linhas são o começo das entradas de todas, e cada linha lida
/// completa no máximo uma entrada, que sai antes da linha seguinte ser lida.
pub proof fn law_entries_in_input_order(ls: Seq<Option<Seq<char>>>, k: int)
    requires
        0 <= k < ls.len(),
    ensures
        run(ls.take(k)).1.len() <= run(ls).1.len(),
        run(ls).1.take(run(ls.take(k)).1.len() as int) == run(ls.take(k)).1,
        run(ls.take(k + 1)).1 == run(ls.take(k)).1
            || run(ls.take(k + 1)).1 == run(ls.take(k)).1.push(run(ls.take(k + 1)).1.last()),
    decreases ls.len(),
{
    lemma_run_grows(ls.take(k + 1));
    assert(ls.take(k + 1).drop_last() =~= ls.take(k));
    lemma_run_prefix(ls, k);
}

proof fn lemma_run_grows(ls: Seq<Option<Seq<char>>>)
    requires
        ls.len() > 0,
    ensures
        run(ls).1 == run(ls.drop_last()).1 || run(ls).1 == run(ls.drop_last()).1.push(run(ls).1.last()),
{
}

proof fn lemma_run_prefix(ls: Seq<Option<Seq<char>>>, k: int)
    requires
        0 <= k <= ls.len(),
    ensures
        run(ls.take(k)).1.len() <= run(ls).1.len(),
        run(ls).1.take(run(ls.take(k)).1.len() as int) == run(ls.take(k)).1,
    decreases ls.len(),
{
    if k == ls.len() {
        assert(ls.take(k) =~= ls);
        assert(run(ls).1.take(run(ls).1.len() as int) =~= run(ls).1);
    } else {
        let prev = ls.drop_last();
        assert(prev.take(k) =~= ls.take(k));
        lemma_run_prefix(prev, k);
        lemma_run_grows(ls);
        let (a, b) = (run(ls.take(k)).1, run(prev).1);
        assert(run(ls).1.take(a.len() as int) =~= b.take(a.len() as int));
    }
}

/// Um comentário entre o `#EXTINF` e a sua URL (`#EXTVLCOPT`, `#EXTGRP`, ...)
/// não muda nada: depois de quaisquer linhas, `#EXTINF`, comentário e URL dão
/// as mesmas entradas e a mesma contagem que `#EXTINF` e URL — a entrada do par
/// sai, e nenhum descarte a mais é contado.
pub proof fn law_comment_keeps_pending(ls: Seq<Option<Seq<char>>>, extinf: Seq<char>, comment: Seq<char>, url: Seq<char>)
    requires
        extinf_prefix().len() <= trim(extinf).len(),
        trim(extinf).take(extinf_prefix().len() as int) == extinf_prefix(),
        split_extinf_spec(trim(extinf)) is Some,
        trim(comment).len() > 0,
        trim(comment)[0] == '#',
        !(extinf_prefix().len() <= trim(comment).len()
            && trim(comment).take(extinf_prefix().len() as int) == extinf_prefix()),
        trim(url).len() > 0,
        trim(url)[0] != '#',
    ensures
        run(ls + seq![Some(extinf), Some(comment), Some(url)]) == run(ls + seq![Some(extinf), Some(url)]),
        run(ls + seq![Some(extinf), Some(comment), Some(url)]).1.len() == run(ls).1.len() + 1,
        run(ls + seq![Some(extinf), Some(comment), Some(url)]).0.discarded == run(ls).0.discarded
            + ready_count(run(ls).0.pending),
{
    let one = ls + seq![Some(extinf)];
    let two = ls + seq![Some(extinf), Some(comment)];
    let three = ls + seq![Some(extinf), Some(comment), Some(url)];
    let pair = ls + seq![Some(extinf), Some(url)];
    assert(one.drop_last() =~= ls);
    assert(one.last() == Some(extinf));
    assert(two.drop_last() =~= one);
    assert(two.last() == Some(comment));
    assert(three.drop_last() =~= two);
    assert(three.last() == Some(url));
    assert(pair.drop_last() =~= one);
    assert(pair.last() == Some(url));
    let url_t = trim(url);
    assert(!(extinf_prefix().len() <= url_t.len() && url_t.take(extinf_prefix().len() as int) == extinf_prefix())) by {
        reveal_strlit("#EXTINF:");
        if extinf_prefix().len() <= url_t.len() && url_t.take(extinf_prefix().len() as int) == extinf_prefix() {
            assert(url_t.take(extinf_prefix().len() as int)[0] == url_t[0]);
        }
    }
    let (attrs, name) = split_extinf_spec(trim(extinf))->0;
    let (st0, es0) = run(ls);
    let (st1, e1) = step(st0, Some(extinf));
    assert(e1 is None);
    assert(st1.pending == PendingView::Ready(attrs, name));
    assert(run(one) == (st1, es0));
    let (st2, e2) = step(st1, Some(comment));
    assert(st2 == st1 && e2 is None);
    assert(run(two) == (st1, es0));
    assert(run(three) == run(pair));
    let (st3, e3) = step(st1, Some(url));
    assert(e3 == Some(build_spec(attrs, name, url_t)));
    assert(run(pair) == (st3, es0.push(build_spec(attrs, name, url_t))));
}

proof fn lemma_item_id_has_no_sep(e: EntryView)
    ensures
        !entry_item_id(e).contains('\u{1f}'),
{
    let id = entry_item_id(e);
    let bytes = sha256(vstd::utf8::encode_utf8(item_key(kind_text(e.kind), e.title_norm, e.year))).take(16);
    lemma_hex_text(bytes);
    if id.contains('\u{1f}') {
        let i = choose|i: int| 0 <= i < id.len() && id[i] == '\u{1f}';
        assert(is_lower_hex(id[i]));
    }
}

/// O episódio pertence à sua série. O id de episódio de uma entrada é o
/// `episode_id` do `item_id` da própria entrada, com a temporada e o episódio
/// dela, e só existe quando há os dois. O texto que vai para o hash começa pelo
/// id da série: entradas de séries com id diferente — e séries de mesmo tipo e
/// ano com título normalizado diferente já têm textos de id diferentes — nunca
/// mandam o mesmo texto para o hash do episódio, mesmo com a mesma temporada e o
/// mesmo episódio.
pub proof fn law_episode_belongs_to_series(e1: EntryView, e2: EntryView)
    ensures
        entry_episode_id(e1) == match (e1.season, e1.episode) {
            (Some(s), Some(n)) => Some(digest_spec(episode_key(entry_item_id(e1), s, n))),
            _ => None::<Seq<char>>,
        },
        ({
            let k1 = item_key(kind_text(e1.kind), e1.title_norm, e1.year);
            let k2 = item_key(kind_text(e2.kind), e2.title_norm, e2.year);
            e1.kind == e2.kind && e1.year == e2.year && e1.title_norm != e2.title_norm
                && !e1.title_norm.contains('\u{1f}') && !e2.title_norm.contains('\u{1f}') ==> k1 != k2
        }),
        forall|s1: i64, n1: i64, s2: i64, n2: i64|
            entry_item_id(e1) != entry_item_id(e2) ==> #[trigger] episode_key(entry_item_id(e1), s1, n1)
                != #[trigger] episode_key(entry_item_id(e2), s2, n2),
{
    lemma_item_id_has_no_sep(e1);
    lemma_item_id_has_no_sep(e2);
    let (k1, k2) = (kind_text(e1.kind), kind_text(e2.kind));
    assert(!k1.contains('\u{1f}') && !k2.contains('\u{1f}')) by {
        reveal_strlit("movie");
        reveal_strlit("series");
        reveal_strlit("channel");
        if k1.contains('\u{1f}') {
            let i = choose|i: int| 0 <= i < k1.len() && k1[i] == '\u{1f}';
        }
        if k2.contains('\u{1f}') {
            let i = choose|i: int| 0 <= i < k2.len() && k2[i] == '\u{1f}';
        }
    }
    if e1.kind == e2.kind && e1.year == e2.year && e1.title_norm != e2.title_norm
        && !e1.title_norm.contains('\u{1f}') && !e2.title_norm.contains('\u{1f}')
        && item_key(k1, e1.title_norm, e1.year) == item_key(k2, e2.title_norm, e2.year) {
        law_item_key_injective(k1, e1.title_norm, e1.year, k2, e2.title_norm, e2.year);
    }
    assert forall|s1: i64, n1: i64, s2: i64, n2: i64|
        entry_item_id(e1) != entry_item_id(e2) implies #[trigger] episode_key(entry_item_id(e1), s1, n1)
            != #[trigger] episode_key(entry_item_id(e2), s2, n2) by {
        let (a, b) = (entry_item_id(e1), entry_item_id(e2));
        let r1 = crate::text::int_text(s1 as int) + unit_sep() + crate::text::int_text(n1 as int);
        let r2 = crate::text::int_text(s2 as int) + unit_sep() + crate::text::int_text(n2 as int);
        assert(episode_key(a, s1, n1) =~= a + unit_sep() + r1);
        assert(episode_key(b, s2, n2) =~= b + unit_sep() + r2);
        if episode_key(a, s1, n1) == episode_key(b, s2, n2) {
            lemma_split_at_sep(a, r1, b, r2);
        }
    }
}

/// Marca de versão manda na versão: um primeiro token (já dobrado) "l", "leg",
/// "legendado", "legendada", "legendados", "legendadas", "sub" ou "subbed" dá
/// "Legendado"; "dub", "dublado", "dublada", "dublados" ou "dubladas" dá
/// "Dublado", sejam quais forem os tokens seguintes.
pub proof fn law_variant_marks(t: Seq<char>, rest: Seq<Seq<char>>)
    ensures
        (t == "l"@ || t == "leg"@ || t == "legendado"@ || t == "legendada"@ || t == "legendados"@
            || t == "legendadas"@ || t == "sub"@ || t == "subbed"@) ==> first_variant(seq![t] + rest)
            == Some("Legendado"@),
        (t == "dub"@ || t == "dublado"@ || t == "dublada"@ || t == "dublados"@ || t == "dubladas"@)
            ==> first_variant(seq![t] + rest) == Some("Dublado"@),
{
    reveal_strlit("l");
    reveal_strlit("leg");
    reveal_strlit("dub");
    reveal_strlit("sub");
    assert((seq![t] + rest)[0] == t);
    if t == "dub"@ || t == "dublado"@ || t == "dublada"@ || t == "dublados"@ || t == "dubladas"@ {
        assert(!is_legendado_token(t)) by {
            reveal_strlit("dublado");
            reveal_strlit("dublada");
            reveal_strlit("dublados");
            reveal_strlit("dubladas");
            assert(t.len() > 0 && t[0] == 'd');
            reveal_strlit("legendado");
            reveal_strlit("legendada");
            reveal_strlit("legendados");
            reveal_strlit("legendadas");
            reveal_strlit("subbed");
            assert("l"@[0] == 'l' && "leg"@[0] == 'l' && "legendado"@[0] == 'l' && "legendada"@[0] == 'l');
            assert("legendados"@[0] == 'l' && "legendadas"@[0] == 'l' && "sub"@[0] == 's' && "subbed"@[0] == 's');
        }
    }
}

/// Marca de qualidade sai do nome e vai para a qualidade: uma palavra cuja
/// forma nua em maiúsculas é 4K, 8K, UHD, FHD, HD, SD, H265, H264, HEVC, 1080P,
/// 720P ou 2160P entra nas marcas achadas e não fica no título.
pub proof fn law_quality_marks_leave_title(ws: Seq<Seq<char>>, w: Seq<char>)
    requires
        ({
            let b = bare_token(w);
            b == "4K"@ || b == "8K"@ || b == "UHD"@ || b == "FHD"@ || b == "HD"@ || b == "SD"@
                || b == "H265"@ || b == "H264"@ || b == "HEVC"@ || b == "1080P"@ || b == "720P"@
                || b == "2160P"@
        }),
    ensures
        quality_scan(ws.push(w)) == (quality_scan(ws).0.push(bare_token(w)), quality_scan(ws).1),
{
    assert(ws.push(w).drop_last() =~= ws);
    assert(ws.push(w).last() == w);
}

/// Grupo de canal faz canal: um grupo cujo nome normalizado tem a palavra
/// "canais", "canal", "tv", "live" ou "abertos", ou o trecho "ao vivo", marca
/// a entrada como canal (quando o nome não tem marca de episódio).
pub proof fn law_channel_groups(attrs: Seq<(Seq<char>, Seq<char>)>, group: Seq<char>, i: int)
    requires
        (0 <= i < words(normalize_spec(group)).len() && ({
            let t = words(normalize_spec(group))[i];
            t == "canais"@ || t == "canal"@ || t == "tv"@ || t == "live"@ || t == "abertos"@
        })) || contains_seq(normalize_spec(group), "ao vivo"@),
    ensures
        looks_like_channel_spec(attrs, Some(group)),
{
    if 0 <= i < words(normalize_spec(group)).len() {
        let ws = words(normalize_spec(group));
        assert(is_channel_word(ws[i]) || contains_seq(normalize_spec(group), "ao vivo"@));
    }
}

/// Um final de contagem: o que foi entregue e o que foi descartado somam no
/// máximo o número de linhas.
pub proof fn law_outcome_bounded(ls: Seq<Option<Seq<char>>>)
    ensures
        final_outcome(run(ls).0).0 + final_outcome(run(ls).0).1 <= ls.len(),
        final_outcome(run(ls).0).0 == run(ls).1.len(),
{
    law_run_counts(ls);
}

/// O id nasce de `(kind, title_norm, year)` e nunca da URL: duas entradas com
/// os mesmos três valores caem no mesmo título, e, com a mesma temporada e o
/// mesmo episódio, no mesmo episódio.
pub proof fn law_same_title_same_ids(e1: EntryView, e2: EntryView)
    requires
        e1.kind == e2.kind,
        e1.title_norm == e2.title_norm,
        e1.year == e2.year,
    ensures
        entry_item_id(e1) == entry_item_id(e2),
        e1.season == e2.season && e1.episode == e2.episode ==> entry_episode_id(e1) == entry_episode_id(e2),
{
}

} // verus!
