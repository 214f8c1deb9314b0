//! Título normalizado e identificadores estáveis.
//!
//! O id de um item nasce de `(kind, title_norm, year)` e nunca da URL: é isso que
//! faz o mesmo filme de duas listas colapsar num item só e o progresso sobreviver
//! a um re-sync.

use sha2::{Digest, Sha256};
use vstd::prelude::*;

use crate::text::{
    all_digits, ascii_digit, chars_of, eq_lit, fold, fold_str, int_text, is_digit, join,
    lemma_int_text_injective, lemma_int_text_lacks,
    join_chars, lemma_deep_view_chars, push_i64_text, push_lit, slice_chars, string_of, trim,
    trim_chars, words, words_of, all_ascii, ascii_lower, fold_chars, is_alnum, is_mark, is_white,
    split_state, trim_start, trim_end, lower, nfd,
};

verus! {

// ---------------------------------------------------------------- normalize

/// Texto fora de `[]`, `()` e `{}`, com a profundidade de aninhamento que ficou
/// aberta. Um fechamento sem abertura não deixa a profundidade negativa.
pub open spec fn unbracket_state(s: Seq<char>) -> (Seq<char>, nat)
    decreases s.len(),
{
    if s.len() == 0 {
        (seq![], 0)
    } else {
        let (out, depth) = unbracket_state(s.drop_last());
        let c = s.last();
        if c == '[' || c == '(' || c == '{' {
            (out, depth + 1)
        } else if c == ']' || c == ')' || c == '}' {
            (out, if depth > 0 { (depth - 1) as nat } else { 0 })
        } else if depth == 0 {
            (out.push(c), depth)
        } else {
            (out, depth)
        }
    }
}

pub open spec fn unbracket(s: Seq<char>) -> Seq<char> {
    unbracket_state(s).0
}

/// Ruído que as listas acrescentam ao nome e que não distingue uma obra de outra.
pub open spec fn is_noise(t: Seq<char>) -> bool {
    ||| t == "4k"@ ||| t == "8k"@ ||| t == "uhd"@ ||| t == "fhd"@ ||| t == "hd"@
    ||| t == "sd"@ ||| t == "h265"@ ||| t == "h264"@ ||| t == "hevc"@ ||| t == "x265"@
    ||| t == "x264"@ ||| t == "l"@ ||| t == "alt"@ ||| t == "alternativo"@
    ||| t == "alternativa"@ ||| t == "dublado"@ ||| t == "dub"@ ||| t == "legendado"@
    ||| t == "leg"@ ||| t == "nacional"@ ||| t == "multi"@ ||| t == "1080p"@
    ||| t == "720p"@ ||| t == "480p"@ ||| t == "2160p"@
}

/// Tokens que não são ruído, na ordem.
pub open spec fn drop_noise(ts: Seq<Seq<char>>) -> Seq<Seq<char>>
    decreases ts.len(),
{
    if ts.len() == 0 {
        seq![]
    } else if is_noise(ts.last()) {
        drop_noise(ts.drop_last())
    } else {
        drop_noise(ts.drop_last()).push(ts.last())
    }
}

/// Número solto de até dois dígitos ASCII — resto de token de qualidade.
pub open spec fn is_short_number(t: Seq<char>) -> bool {
    t.len() <= 2 && all_digits(t)
}

pub open spec fn drop_trailing_numbers(ts: Seq<Seq<char>>) -> Seq<Seq<char>>
    decreases ts.len(),
{
    if ts.len() > 0 && is_short_number(ts.last()) {
        drop_trailing_numbers(ts.drop_last())
    } else {
        ts
    }
}

/// Tokens do título normalizado.
pub open spec fn norm_tokens(title: Seq<char>) -> Seq<Seq<char>> {
    drop_trailing_numbers(drop_noise(words(fold(unbracket(title)))))
}

/// Título normalizado: sem parênteses e colchetes, dobrado, sem ruído nem
/// número solto no fim, tokens separados por um espaço.
pub open spec fn normalize_spec(title: Seq<char>) -> Seq<char> {
    trim(join(norm_tokens(title), seq![' ']))
}

fn is_noise_token(t: &[char]) -> (b: bool)
    ensures
        b == is_noise(t@),
{
    eq_lit(t, "4k") || eq_lit(t, "8k") || eq_lit(t, "uhd") || eq_lit(t, "fhd")
        || eq_lit(t, "hd") || eq_lit(t, "sd") || eq_lit(t, "h265") || eq_lit(t, "h264")
        || eq_lit(t, "hevc") || eq_lit(t, "x265") || eq_lit(t, "x264") || eq_lit(t, "l")
        || eq_lit(t, "alt") || eq_lit(t, "alternativo") || eq_lit(t, "alternativa")
        || eq_lit(t, "dublado") || eq_lit(t, "dub") || eq_lit(t, "legendado")
        || eq_lit(t, "leg") || eq_lit(t, "nacional") || eq_lit(t, "multi")
        || eq_lit(t, "1080p") || eq_lit(t, "720p") || eq_lit(t, "480p")
        || eq_lit(t, "2160p")
}

fn unbracket_chars(v: &[char]) -> (r: Vec<char>)
    ensures
        r@ == unbracket(v@),
{
    let n = v.len();
    let mut out: Vec<char> = Vec::new();
    let mut depth: usize = 0;
    let mut i: usize = 0;
    while i < n
        invariant
            i <= n == v@.len(),
            depth <= i,
            (out@, depth as nat) == unbracket_state(v@.take(i as int)),
        decreases n - i,
    {
        let c = v[i];
        assert(v@.take(i + 1).drop_last() =~= v@.take(i as int));
        if c == '[' || c == '(' || c == '{' {
            depth += 1;
        } else if c == ']' || c == ')' || c == '}' {
            depth = if depth > 0 { depth - 1 } else { 0 };
        } else if depth == 0 {
            out.push(c);
        }
        i += 1;
    }
    assert(v@.take(n as int) =~= v@);
    out
}

fn is_short_number_token(t: &[char]) -> (b: bool)
    ensures
        b == is_short_number(t@),
{
    if t.len() > 2 {
        return false;
    }
    let mut i: usize = 0;
    while i < t.len()
        invariant
            i <= t@.len() <= 2,
            forall|k: int| 0 <= k < i ==> is_digit(#[trigger] t@[k]),
        decreases t@.len() - i,
    {
        if !ascii_digit(t[i]) {
            return false;
        }
        i += 1;
    }
    true
}

/// Minúsculas, sem acento, sem parênteses/colchetes, sem tokens de qualidade,
/// espaços colapsados. Alimenta `items.title_norm` e, por consequência, o hash.
pub fn normalize(title: &str) -> (r: String)
    ensures
        r@ == normalize_spec(title@),
{
    let chars = chars_of(title);
    let plain_chars = unbracket_chars(chars.as_slice());
    let plain = string_of(plain_chars.as_slice());
    let folded = fold_str(plain.as_str());
    let tokens = words_of(folded.as_slice());

    // Ruído sai.
    let ghost ts = tokens.deep_view();
    let mut kept: Vec<Vec<char>> = Vec::new();
    let mut i: usize = 0;
    while i < tokens.len()
        invariant
            i <= tokens@.len(),
            ts == tokens.deep_view(),
            kept.deep_view() == drop_noise(ts.take(i as int)),
        decreases tokens@.len() - i,
    {
        assert(ts.take(i + 1).drop_last() =~= ts.take(i as int));
        assert(ts[i as int] == tokens@[i as int]@);
        if !is_noise_token(tokens[i].as_slice()) {
            let ghost before = kept.deep_view();
            let token = slice_chars(tokens[i].as_slice(), 0, tokens[i].len());
            assert(token@ =~= tokens@[i as int]@);
            proof { lemma_deep_view_chars(&token); }
            kept.push(token);
            assert(kept.deep_view() =~= before.push(ts[i as int]));
        }
        i += 1;
    }
    assert(ts.take(tokens@.len() as int) =~= ts);

    // Um número solto no fim é resto de marca de qualidade ("ALT 2").
    let ghost ks = kept.deep_view();
    let mut end = kept.len();
    assert(ks.take(end as int) =~= ks);
    while end > 0 && is_short_number_token(kept[end - 1].as_slice())
        invariant
            end <= kept@.len(),
            ks == kept.deep_view(),
            drop_trailing_numbers(ks) == drop_trailing_numbers(ks.take(end as int)),
        decreases end,
    {
        assert(ks.take(end as int).drop_last() =~= ks.take(end - 1));
        assert(ks[end - 1] == kept@[end - 1]@);
        end -= 1;
    }
    proof {
        assert(ks.take(kept@.len() as int) =~= ks);
        if end > 0 {
            assert(ks[end - 1] == kept@[end - 1]@);
            assert(ks.take(end as int).last() == ks[end - 1]);
        }
    }
    kept.truncate(end);
    assert(kept.deep_view() =~= ks.take(end as int));

    let mut sep: Vec<char> = Vec::new();
    sep.push(' ');
    assert(sep@ =~= seq![' ']);
    let joined = join_chars(&kept, sep.as_slice());
    assert(folded@ == fold(unbracket(title@)));
    assert(ts == words(fold(unbracket(title@))));
    assert(ks == drop_noise(ts));
    assert(kept.deep_view() == norm_tokens(title@));
    let trimmed = trim_chars(joined.as_slice());
    string_of(trimmed.as_slice())
}

// ---------------------------------------------------------------- ids

/// Resultado de `Sha256::digest` (crate `sha2`) sobre os bytes dados.
pub uninterp spec fn sha256(bytes: Seq<u8>) -> Seq<u8>;

pub open spec fn hex_digit(n: u8) -> char
    recommends
        n < 16,
{
    if n < 10 {
        (n + ('0' as u8)) as char
    } else {
        (n - 10 + ('a' as u8)) as char
    }
}

/// Hexadecimal minúsculo, dois caracteres por byte, nibble alto primeiro.
pub open spec fn hex_text(bytes: Seq<u8>) -> Seq<char>
    decreases bytes.len(),
{
    if bytes.len() == 0 {
        seq![]
    } else {
        hex_text(bytes.drop_last()) + seq![hex_digit(bytes.last() / 16), hex_digit(bytes.last() % 16)]
    }
}

/// `Sha256::digest` do crate `sha2`. O tipo de saída do crate tem 32 bytes
/// (`U32`), que é o que o contrato afirma além do nome.
#[verifier::external_body]
fn sha256_digest(bytes: &[u8]) -> (r: Vec<u8>)
    ensures
        r@ == sha256(bytes@),
        r@.len() == 32,
{
    Sha256::digest(bytes).to_vec()
}

/// `hex::encode` do crate `hex`: cada byte vira dois dígitos de `0123456789abcdef`.
#[verifier::external_body]
fn hex_encode(bytes: &[u8]) -> (r: String)
    ensures
        r@ == hex_text(bytes@),
{
    hex::encode(bytes)
}

/// Os 16 primeiros bytes do SHA-256 do texto em UTF-8, em hexadecimal.
pub open spec fn digest_spec(input: Seq<char>) -> Seq<char> {
    hex_text(sha256(vstd::utf8::encode_utf8(input)).take(16))
}

pub open spec fn unit_sep() -> Seq<char> {
    seq!['\u{1f}']
}

/// Texto que identifica um título: `kind`, título normalizado e ano (0 quando
/// não há), separados por U+001F.
pub open spec fn item_key(kind: Seq<char>, title_norm: Seq<char>, year: Option<i64>) -> Seq<char> {
    kind + unit_sep() + title_norm + unit_sep() + int_text(
        match year {
            Some(y) => y as int,
            None => 0,
        },
    )
}

pub open spec fn episode_key(series_id: Seq<char>, season: i64, episode: i64) -> Seq<char> {
    series_id + unit_sep() + int_text(season as int) + unit_sep() + int_text(episode as int)
}

pub open spec fn is_lower_hex(c: char) -> bool {
    ('0' <= c <= '9') || ('a' <= c <= 'f')
}

/// Dois dígitos hexadecimais minúsculos por byte.
pub proof fn lemma_hex_text(bytes: Seq<u8>)
    ensures
        hex_text(bytes).len() == 2 * bytes.len(),
        forall|i: int| 0 <= i < hex_text(bytes).len() ==> is_lower_hex(#[trigger] hex_text(bytes)[i]),
    decreases bytes.len(),
{
    if bytes.len() > 0 {
        lemma_hex_text(bytes.drop_last());
        let prev = hex_text(bytes.drop_last());
        let b = bytes.last();
        assert(hex_text(bytes) == prev + seq![hex_digit(b / 16), hex_digit(b % 16)]);
        assert(is_lower_hex(hex_digit(b / 16)));
        assert(is_lower_hex(hex_digit(b % 16)));
        assert forall|i: int| 0 <= i < hex_text(bytes).len() implies is_lower_hex(#[trigger] hex_text(bytes)[i]) by {
            if i < prev.len() {
                assert(hex_text(bytes)[i] == prev[i]);
            }
        }
    }
}

/// Formato de todo id: 32 caracteres hexadecimais minúsculos.
pub open spec fn is_id_text(s: Seq<char>) -> bool {
    s.len() == 32 && forall|i: int| 0 <= i < 32 ==> is_lower_hex(#[trigger] s[i])
}

fn digest(input: &[char]) -> (r: String)
    ensures
        r@ == digest_spec(input@),
        is_id_text(r@),
{
    let text = string_of(input);
    let hash = sha256_digest(text.as_str().as_bytes());
    let head = slice_u8(hash.as_slice(), 16);
    proof { lemma_hex_text(head@); }
    hex_encode(head.as_slice())
}

fn slice_u8(v: &[u8], n: usize) -> (r: Vec<u8>)
    requires
        n <= v@.len(),
    ensures
        r@ == v@.take(n as int),
{
    let mut r: Vec<u8> = Vec::new();
    let mut i: usize = 0;
    while i < n
        invariant
            i <= n <= v@.len(),
            r@ == v@.take(i as int),
        decreases n - i,
    {
        r.push(v[i]);
        i += 1;
        assert(r@ =~= v@.take(i as int));
    }
    r
}

pub fn item_id(kind: &str, title_norm: &str, year: Option<i64>) -> (r: String)
    ensures
        r@ == digest_spec(item_key(kind@, title_norm@, year)),
        is_id_text(r@),
{
    let mut text: Vec<char> = Vec::new();
    push_lit(&mut text, kind);
    text.push('\u{1f}');
    push_lit(&mut text, title_norm);
    text.push('\u{1f}');
    let y = match year {
        Some(y) => y,
        None => 0,
    };
    push_i64_text(&mut text, y);
    assert(text@ =~= item_key(kind@, title_norm@, year));
    digest(text.as_slice())
}

pub fn episode_id(series_id: &str, season: i64, episode: i64) -> (r: String)
    ensures
        r@ == digest_spec(episode_key(series_id@, season, episode)),
        is_id_text(r@),
{
    let mut text: Vec<char> = Vec::new();
    push_lit(&mut text, series_id);
    text.push('\u{1f}');
    push_i64_text(&mut text, season);
    text.push('\u{1f}');
    push_i64_text(&mut text, episode);
    assert(text@ =~= episode_key(series_id@, season, episode));
    digest(text.as_slice())
}





proof fn lemma_drop_noise(ts: Seq<Seq<char>>)
    ensures
        forall|i: int| 0 <= i < drop_noise(ts).len() ==> !is_noise(#[trigger] drop_noise(ts)[i]),
        forall|i: int| 0 <= i < drop_noise(ts).len() ==> ts.contains(#[trigger] drop_noise(ts)[i]),
    decreases ts.len(),
{
    if ts.len() > 0 {
        let prev = ts.drop_last();
        lemma_drop_noise(prev);
        let d = drop_noise(ts);
        let dp = drop_noise(prev);
        assert forall|i: int| 0 <= i < d.len() implies !is_noise(#[trigger] d[i]) && ts.contains(d[i]) by {
            if i < dp.len() {
                assert(d[i] == dp[i]);
                let j = choose|j: int| 0 <= j < prev.len() && prev[j] == dp[i];
                assert(ts[j] == prev[j]);
            } else {
                assert(d[i] == ts.last());
                assert(ts[ts.len() - 1] == ts.last());
            }
        }
    }
}

proof fn lemma_drop_trailing_numbers(ts: Seq<Seq<char>>)
    ensures
        drop_trailing_numbers(ts).len() <= ts.len(),
        drop_trailing_numbers(ts) == ts.take(drop_trailing_numbers(ts).len() as int),
        drop_trailing_numbers(ts).len() > 0 ==> !is_short_number(drop_trailing_numbers(ts).last()),
    decreases ts.len(),
{
    if ts.len() > 0 && is_short_number(ts.last()) {
        lemma_drop_trailing_numbers(ts.drop_last());
        let r = drop_trailing_numbers(ts);
        assert(ts.drop_last().take(r.len() as int) =~= ts.take(r.len() as int));
    } else {
        assert(ts.take(ts.len() as int) =~= ts);
    }
}

/// Os tokens do título normalizado não têm marca de qualidade, áudio ou
/// resolução ("4k", "fhd", "dublado", "1080p", ...), e o último nunca é um
/// número solto de até dois dígitos.
pub proof fn law_norm_tokens_are_clean(title: Seq<char>)
    ensures
        forall|i: int| 0 <= i < norm_tokens(title).len() ==> !is_noise(#[trigger] norm_tokens(title)[i]),
        norm_tokens(title).len() > 0 ==> !is_short_number(norm_tokens(title).last()),
{
    let ws = words(fold(unbracket(title)));
    lemma_drop_noise(ws);
    lemma_drop_trailing_numbers(drop_noise(ws));
    let d = drop_noise(ws);
    let t = norm_tokens(title);
    assert forall|i: int| 0 <= i < t.len() implies !is_noise(#[trigger] t[i]) by {
        assert(t[i] == d.take(t.len() as int)[i]);
        assert(t[i] == d[i]);
    }
}


// ---------------------------------------------------------------- normalizar de novo

/// Caractere de token normalizado: letra ASCII minúscula ou dígito.
pub open spec fn norm_char(c: char) -> bool {
    ('a' <= c <= 'z') || ('0' <= c <= '9')
}

pub open spec fn folded_char(c: char) -> bool {
    norm_char(c) || c == ' '
}

pub open spec fn all_folded(s: Seq<char>) -> bool {
    forall|i: int| 0 <= i < s.len() ==> folded_char(#[trigger] s[i])
}

pub open spec fn norm_token(t: Seq<char>) -> bool {
    t.len() > 0 && forall|i: int| 0 <= i < t.len() ==> norm_char(#[trigger] t[i])
}

pub open spec fn norm_tokens_ok(ts: Seq<Seq<char>>) -> bool {
    forall|i: int| 0 <= i < ts.len() ==> norm_token(#[trigger] ts[i])
}

proof fn lemma_unbracket_ascii(s: Seq<char>)
    requires
        all_ascii(s),
    ensures
        all_ascii(unbracket_state(s).0),
    decreases s.len(),
{
    if s.len() > 0 {
        let p = s.drop_last();
        assert forall|i: int| 0 <= i < p.len() implies (#[trigger] p[i] as u32) < 128 by {
            assert(p[i] == s[i]);
        }
        lemma_unbracket_ascii(p);
        assert((s[s.len() - 1] as u32) < 128);
        let out = unbracket_state(s).0;
        let po = unbracket_state(p).0;
        assert forall|i: int| 0 <= i < out.len() implies (#[trigger] out[i] as u32) < 128 by {
            if i < po.len() {
                assert(out[i] == po[i]);
            }
        }
    }
}

proof fn lemma_unbracket_plain(s: Seq<char>)
    requires
        all_folded(s),
    ensures
        unbracket_state(s) == (s, 0nat),
    decreases s.len(),
{
    if s.len() > 0 {
        let p = s.drop_last();
        assert forall|i: int| 0 <= i < p.len() implies folded_char(#[trigger] p[i]) by {
            assert(p[i] == s[i]);
        }
        lemma_unbracket_plain(p);
        assert(folded_char(s[s.len() - 1]));
        assert(p.push(s.last()) =~= s);
    }
}

proof fn lemma_ascii_lower_facts(s: Seq<char>)
    requires
        all_ascii(s),
    ensures
        all_ascii(ascii_lower(s)),
        forall|i: int| 0 <= i < s.len() ==> !('A' <= #[trigger] ascii_lower(s)[i] <= 'Z'),
{
    let l = ascii_lower(s);
    assert forall|i: int| 0 <= i < l.len() implies (#[trigger] l[i] as u32) < 128 && !('A' <= l[i] <= 'Z') by {
        assert((s[i] as u32) < 128);
    }
}

proof fn lemma_fold_chars_folded(u: Seq<char>)
    requires
        forall|i: int| 0 <= i < u.len() ==> (#[trigger] u[i] as u32) < 128 && !('A' <= u[i] <= 'Z'),
    ensures
        all_folded(fold_chars(u)),
    decreases u.len(),
{
    if u.len() > 0 {
        let p = u.drop_last();
        assert forall|i: int| 0 <= i < p.len() implies (#[trigger] p[i] as u32) < 128 && !('A' <= p[i] <= 'Z') by {
            assert(p[i] == u[i]);
        }
        lemma_fold_chars_folded(p);
        let c = u.last();
        assert((u[u.len() - 1] as u32) < 128 && !('A' <= u[u.len() - 1] <= 'Z'));
        assert(!is_mark(c));
        let r = fold_chars(u);
        let pr = fold_chars(p);
        assert forall|i: int| 0 <= i < r.len() implies folded_char(#[trigger] r[i]) by {
            if i < pr.len() {
                assert(r[i] == pr[i]);
            }
        }
    }
}

proof fn lemma_fold_chars_fixed(s: Seq<char>)
    requires
        all_folded(s),
    ensures
        fold_chars(s) == s,
    decreases s.len(),
{
    if s.len() > 0 {
        let p = s.drop_last();
        assert forall|i: int| 0 <= i < p.len() implies folded_char(#[trigger] p[i]) by {
            assert(p[i] == s[i]);
        }
        lemma_fold_chars_fixed(p);
        assert(folded_char(s[s.len() - 1]));
        assert(!is_mark(s.last()));
        assert(p.push(s.last()) =~= s);
    }
}

/// Texto só ASCII dobra sem NFD nem Unicode: caixa baixa ASCII e o resto.
proof fn lemma_fold_ascii(s: Seq<char>)
    requires
        all_ascii(s),
    ensures
        fold(s) == fold_chars(ascii_lower(s)),
        all_folded(fold(s)),
{
    lemma_ascii_lower_facts(s);
    assert(lower(s) == ascii_lower(s));
    assert(nfd(ascii_lower(s)) == ascii_lower(s));
    lemma_fold_chars_folded(ascii_lower(s));
}

proof fn lemma_fold_fixed(s: Seq<char>)
    requires
        all_folded(s),
    ensures
        fold(s) == s,
{
    assert(all_ascii(s)) by {
        assert forall|i: int| 0 <= i < s.len() implies (#[trigger] s[i] as u32) < 128 by {
            assert(folded_char(s[i]));
        }
    }
    assert(ascii_lower(s) =~= s) by {
        assert forall|i: int| 0 <= i < s.len() implies ascii_lower(s)[i] == s[i] by {
            assert(folded_char(s[i]));
        }
    }
    lemma_fold_ascii(s);
    lemma_fold_chars_fixed(s);
}

proof fn lemma_split_state_tokens(s: Seq<char>)
    requires
        all_folded(s),
    ensures
        norm_tokens_ok(split_state(s).0),
        forall|i: int| 0 <= i < split_state(s).1.len() ==> norm_char(#[trigger] split_state(s).1[i]),
    decreases s.len(),
{
    if s.len() > 0 {
        let p = s.drop_last();
        assert forall|i: int| 0 <= i < p.len() implies folded_char(#[trigger] p[i]) by {
            assert(p[i] == s[i]);
        }
        lemma_split_state_tokens(p);
        let c = s.last();
        assert(folded_char(s[s.len() - 1]));
        let (done, cur) = split_state(p);
        if is_white(c) {
            if cur.len() > 0 {
                let nd = done.push(cur);
                assert forall|i: int| 0 <= i < nd.len() implies norm_token(#[trigger] nd[i]) by {
                    if i < done.len() {
                        assert(nd[i] == done[i]);
                    }
                }
            }
        } else {
            let nc = cur.push(c);
            assert(norm_char(c));
            assert forall|i: int| 0 <= i < nc.len() implies norm_char(#[trigger] nc[i]) by {
                if i < cur.len() {
                    assert(nc[i] == cur[i]);
                }
            }
        }
    }
}

proof fn lemma_words_tokens(s: Seq<char>)
    requires
        all_folded(s),
    ensures
        norm_tokens_ok(words(s)),
{
    lemma_split_state_tokens(s);
    let (done, cur) = split_state(s);
    if cur.len() > 0 {
        let w = done.push(cur);
        assert forall|i: int| 0 <= i < w.len() implies norm_token(#[trigger] w[i]) by {
            if i < done.len() {
                assert(w[i] == done[i]);
            }
        }
    }
}

proof fn lemma_split_state_word(x: Seq<char>, w: Seq<char>)
    requires
        forall|i: int| 0 <= i < w.len() ==> norm_char(#[trigger] w[i]),
    ensures
        split_state(x + w) == (split_state(x).0, split_state(x).1 + w),
    decreases w.len(),
{
    if w.len() == 0 {
        assert(x + w =~= x);
        assert(split_state(x).1 + w =~= split_state(x).1);
    } else {
        let p = w.drop_last();
        assert forall|i: int| 0 <= i < p.len() implies norm_char(#[trigger] p[i]) by {
            assert(p[i] == w[i]);
        }
        lemma_split_state_word(x, p);
        assert((x + w).drop_last() =~= x + p);
        assert((x + w).last() == w.last());
        assert(norm_char(w[w.len() - 1]));
        assert(split_state(x).1 + p.push(w.last()) =~= split_state(x).1 + w);
    }
}

proof fn lemma_split_state_join(ts: Seq<Seq<char>>)
    requires
        ts.len() > 0,
        norm_tokens_ok(ts),
    ensures
        split_state(join(ts, seq![' '])) == (ts.drop_last(), ts.last()),
    decreases ts.len(),
{
    if ts.len() == 1 {
        assert(norm_token(ts[0]));
        lemma_split_state_word(Seq::<char>::empty(), ts[0]);
        assert(Seq::<char>::empty() + ts[0] =~= ts[0]);
        assert(split_state(Seq::<char>::empty()) == (Seq::<Seq<char>>::empty(), Seq::<char>::empty()));
        assert(Seq::<char>::empty() + ts[0] =~= ts[0]);
        assert(ts.drop_last() =~= Seq::<Seq<char>>::empty());
    } else {
        let p = ts.drop_last();
        assert forall|i: int| 0 <= i < p.len() implies norm_token(#[trigger] p[i]) by {
            assert(p[i] == ts[i]);
        }
        lemma_split_state_join(p);
        let x = join(p, seq![' ']);
        let xs = x + seq![' '];
        assert(xs.drop_last() =~= x);
        assert(xs.last() == ' ');
        assert(norm_token(p[p.len() - 1]));
        assert(split_state(xs) == (p.drop_last().push(p.last()), Seq::<char>::empty()));
        assert(p.drop_last().push(p.last()) =~= p);
        assert(norm_token(ts[ts.len() - 1]));
        lemma_split_state_word(xs, ts.last());
        assert(Seq::<char>::empty() + ts.last() =~= ts.last());
        assert(join(ts, seq![' ']) == xs + ts.last());
    }
}

proof fn lemma_words_join(ts: Seq<Seq<char>>)
    requires
        norm_tokens_ok(ts),
    ensures
        words(join(ts, seq![' '])) == ts,
{
    if ts.len() == 0 {
        assert(join(ts, seq![' ']) == Seq::<char>::empty());
        assert(split_state(Seq::<char>::empty()) == (Seq::<Seq<char>>::empty(), Seq::<char>::empty()));
    } else {
        lemma_split_state_join(ts);
        assert(norm_token(ts[ts.len() - 1]));
        assert(ts.drop_last().push(ts.last()) =~= ts);
    }
}

proof fn lemma_join_shape(ts: Seq<Seq<char>>)
    requires
        norm_tokens_ok(ts),
    ensures
        all_folded(join(ts, seq![' '])),
        ts.len() > 0 ==> join(ts, seq![' ']).len() > 0 && norm_char(join(ts, seq![' '])[0])
            && norm_char(join(ts, seq![' ']).last()),
    decreases ts.len(),
{
    let j = join(ts, seq![' ']);
    if ts.len() == 1 {
        assert(norm_token(ts[0]));
        assert forall|i: int| 0 <= i < j.len() implies folded_char(#[trigger] j[i]) by {}
    } else if ts.len() > 1 {
        let p = ts.drop_last();
        assert forall|i: int| 0 <= i < p.len() implies norm_token(#[trigger] p[i]) by {
            assert(p[i] == ts[i]);
        }
        lemma_join_shape(p);
        let x = join(p, seq![' ']);
        let w = ts.last();
        assert(norm_token(ts[ts.len() - 1]));
        assert(j == x + seq![' '] + w);
        assert forall|i: int| 0 <= i < j.len() implies folded_char(#[trigger] j[i]) by {
            if i < x.len() {
                assert(j[i] == x[i]);
            } else if i == x.len() {
                assert(j[i] == ' ');
            } else {
                assert(j[i] == w[i - x.len() - 1]);
            }
        }
        assert(j[0] == x[0]);
        assert(j.last() == w.last());
    }
}

proof fn lemma_trim_plain(s: Seq<char>)
    requires
        s.len() > 0,
        norm_char(s[0]),
        norm_char(s.last()),
    ensures
        trim(s) == s,
{
    assert(trim_start(s) == s);
    assert(trim_end(s) == s);
}

proof fn lemma_drop_noise_clean(ts: Seq<Seq<char>>)
    requires
        forall|i: int| 0 <= i < ts.len() ==> !is_noise(#[trigger] ts[i]),
    ensures
        drop_noise(ts) == ts,
    decreases ts.len(),
{
    if ts.len() > 0 {
        let p = ts.drop_last();
        assert forall|i: int| 0 <= i < p.len() implies !is_noise(#[trigger] p[i]) by {
            assert(p[i] == ts[i]);
        }
        lemma_drop_noise_clean(p);
        assert(!is_noise(ts[ts.len() - 1]));
        assert(p.push(ts.last()) =~= ts);
    }
}

proof fn lemma_norm_tokens_shape(title: Seq<char>)
    requires
        all_ascii(title),
    ensures
        norm_tokens_ok(norm_tokens(title)),
{
    lemma_unbracket_ascii(title);
    let u = unbracket(title);
    lemma_fold_ascii(u);
    let ws = words(fold(u));
    lemma_words_tokens(fold(u));
    lemma_drop_noise(ws);
    lemma_drop_trailing_numbers(drop_noise(ws));
    let d = drop_noise(ws);
    let t = norm_tokens(title);
    assert forall|i: int| 0 <= i < t.len() implies norm_token(#[trigger] t[i]) by {
        assert(t[i] == d.take(t.len() as int)[i]);
        assert(t[i] == d[i]);
        let j = choose|j: int| 0 <= j < ws.len() && ws[j] == d[i];
        assert(norm_token(ws[j]));
    }
}

/// Normalizar de novo não muda um título normalizado: o `title_norm` guardado,
/// a chave do cache e os termos da busca são estáveis. Provado para títulos só
/// ASCII, que é onde a caixa baixa e a NFD têm comportamento conhecido aqui.
pub proof fn law_normalize_idempotent_ascii(title: Seq<char>)
    requires
        all_ascii(title),
    ensures
        normalize_spec(normalize_spec(title)) == normalize_spec(title),
{
    let ts = norm_tokens(title);
    lemma_norm_tokens_shape(title);
    law_norm_tokens_are_clean(title);
    lemma_join_shape(ts);
    let j = join(ts, seq![' ']);
    if ts.len() == 0 {
        assert(j == Seq::<char>::empty());
        assert(trim(j) =~= j) by {
            assert(trim_start(j) == j);
            assert(trim_end(j) == j);
        }
    } else {
        lemma_trim_plain(j);
    }
    let n = normalize_spec(title);
    assert(n == j);
    lemma_unbracket_plain(n);
    lemma_fold_fixed(n);
    lemma_words_join(ts);
    assert(words(fold(unbracket(n))) == ts);
    lemma_drop_noise_clean(ts);
    if ts.len() > 0 {
        assert(drop_trailing_numbers(ts) == ts);
    } else {
        assert(drop_trailing_numbers(ts) == ts);
    }
    assert(norm_tokens(n) == ts);
}


proof fn lemma_fold_chars_append(a: Seq<char>, b: Seq<char>)
    ensures
        fold_chars(a + b) == fold_chars(a) + fold_chars(b),
    decreases b.len(),
{
    if b.len() == 0 {
        assert(a + b =~= a);
        assert(fold_chars(a) + fold_chars(b) =~= fold_chars(a));
    } else {
        lemma_fold_chars_append(a, b.drop_last());
        assert((a + b).drop_last() =~= a + b.drop_last());
        assert((a + b).last() == b.last());
        assert(fold_chars(a + b) =~= fold_chars(a) + fold_chars(b));
    }
}

proof fn lemma_unbracket_from_plain(o: Seq<char>, x: Seq<char>)
    requires
        forall|i: int| 0 <= i < x.len() ==> !is_bracket(#[trigger] x[i]),
    ensures
        unbracket_from((o, 0nat), x) == (o + x, 0nat),
    decreases x.len(),
{
    if x.len() == 0 {
        assert(o + x =~= o);
    } else {
        let p = x.drop_last();
        assert forall|i: int| 0 <= i < p.len() implies !is_bracket(#[trigger] p[i]) by {
            assert(p[i] == x[i]);
        }
        lemma_unbracket_from_plain(o, p);
        assert(!is_bracket(x[x.len() - 1]));
        assert((o + p).push(x.last()) =~= o + x);
    }
}

/// Uma marca de qualidade, áudio ou resolução acrescentada como palavra no fim
/// ("Duna" e "Duna 4K", "Duna FHD", "Duna DUBLADO") não muda o título
/// normalizado, e portanto nem o id: as versões de uma obra caem no mesmo
/// item. Provado para títulos e marcas só ASCII.
pub proof fn law_quality_mark_does_not_count_ascii(title: Seq<char>, mark: Seq<char>)
    requires
        all_ascii(title),
        mark.len() > 0,
        forall|i: int| 0 <= i < mark.len() ==> is_alnum(#[trigger] mark[i]) && (mark[i] as u32) < 128,
        is_noise(ascii_lower(mark)),
    ensures
        normalize_spec(title + seq![' '] + mark) == normalize_spec(title),
{
    let x = seq![' '] + mark;
    assert(title + seq![' '] + mark =~= title + x);
    assert forall|i: int| 0 <= i < x.len() implies !is_bracket(#[trigger] x[i]) by {
        if i > 0 {
            assert(x[i] == mark[i - 1]);
            assert(is_alnum(mark[i - 1]));
        }
    }
    lemma_unbracket_append(title, x);
    let (o, d) = unbracket_state(title);
    if d > 0 {
        lemma_unbracket_inside((o, d), x);
        assert(unbracket(title + x) == unbracket(title));
    } else {
        lemma_unbracket_from_plain(o, x);
        assert(unbracket(title + x) == o + x);
        lemma_unbracket_ascii(title);
        let m = ascii_lower(mark);
        assert(all_ascii(x)) by {
            assert forall|i: int| 0 <= i < x.len() implies (#[trigger] x[i] as u32) < 128 by {
                if i > 0 {
                    assert(x[i] == mark[i - 1]);
                }
            }
        }
        assert(all_ascii(o + x)) by {
            assert forall|i: int| 0 <= i < (o + x).len() implies (#[trigger] (o + x)[i] as u32) < 128 by {
                if i < o.len() {
                    assert((o + x)[i] == o[i]);
                } else {
                    assert((o + x)[i] == x[i - o.len()]);
                }
            }
        }
        lemma_fold_ascii(o + x);
        lemma_fold_ascii(o);
        assert(ascii_lower(o + x) =~= ascii_lower(o) + ascii_lower(x));
        lemma_fold_chars_append(ascii_lower(o), ascii_lower(x));
        // a marca já dobrada: letras minúsculas e dígitos
        assert(norm_token(m)) by {
            assert forall|i: int| 0 <= i < m.len() implies norm_char(#[trigger] m[i]) by {
                assert(is_alnum(mark[i]) && (mark[i] as u32) < 128);
            }
        }
        assert(ascii_lower(x) =~= seq![' '] + m);
        assert(all_folded(seq![' '] + m)) by {
            assert forall|i: int| 0 <= i < (seq![' '] + m).len() implies folded_char(#[trigger] (seq![' '] + m)[i]) by {
                if i > 0 {
                    assert((seq![' '] + m)[i] == m[i - 1]);
                }
            }
        }
        lemma_fold_chars_fixed(seq![' '] + m);
        let f = fold(o);
        assert(fold(o + x) == f + seq![' '] + m);
        // as palavras ganham só a marca
        let fs = f + seq![' '];
        assert(fs.drop_last() =~= f);
        assert(fs.last() == ' ');
        lemma_split_state_word(fs, m);
        assert(f + seq![' '] + m =~= fs + m);
        let (done, cur) = split_state(f);
        assert(split_state(fs).1 == Seq::<char>::empty());
        assert(split_state(fs).0 == words(f));
        assert(Seq::<char>::empty() + m =~= m);
        assert(words(fold(o + x)) == words(f).push(m));
        assert(words(f).push(m).drop_last() =~= words(f));
        assert(drop_noise(words(f).push(m)) == drop_noise(words(f)));
    }
}


/// A versão do áudio e as marcas de qualidade, resolução, codec e versão
/// alternativa nunca entram no título normalizado: nenhum token dele é uma
/// delas, seja qual for o título; e um título só ASCII com " Legendado",
/// " Dublado", " 4K", " FHD" ou " H265" no fim normaliza como sem a marca —
/// "Duna Legendado", "Duna Dublado" e "Duna" são o mesmo item.
pub proof fn law_audio_and_quality_marks(title: Seq<char>, mark: Seq<char>)
    requires
        mark == "Legendado"@ || mark == "Dublado"@ || mark == "4K"@ || mark == "FHD"@ || mark == "H265"@,
    ensures
        forall|i: int| 0 <= i < norm_tokens(title).len() ==> {
            let t = #[trigger] norm_tokens(title)[i];
            &&& t != "legendado"@ && t != "leg"@ && t != "dublado"@ && t != "dub"@ && t != "nacional"@
            &&& t != "4k"@ && t != "8k"@ && t != "uhd"@ && t != "fhd"@ && t != "hd"@ && t != "sd"@
            &&& t != "h265"@ && t != "h264"@ && t != "hevc"@ && t != "x265"@ && t != "x264"@
            &&& t != "1080p"@ && t != "720p"@ && t != "480p"@ && t != "2160p"@
            &&& t != "l"@ && t != "alt"@ && t != "alternativo"@ && t != "alternativa"@ && t != "multi"@
        },
        all_ascii(title) ==> normalize_spec(title + seq![' '] + mark) == normalize_spec(title),
{
    reveal_strlit("Legendado");
    reveal_strlit("Dublado");
    reveal_strlit("4K");
    reveal_strlit("FHD");
    reveal_strlit("H265");
    reveal_strlit("legendado");
    reveal_strlit("dublado");
    reveal_strlit("4k");
    reveal_strlit("fhd");
    reveal_strlit("h265");
    law_norm_tokens_are_clean(title);
    assert(is_noise("legendado"@) && is_noise("dublado"@) && is_noise("4k"@) && is_noise("fhd"@)
        && is_noise("h265"@));
    assert(is_noise("leg"@) && is_noise("dub"@) && is_noise("nacional"@) && is_noise("8k"@)
        && is_noise("uhd"@) && is_noise("hd"@) && is_noise("sd"@) && is_noise("h264"@)
        && is_noise("hevc"@) && is_noise("x265"@) && is_noise("x264"@) && is_noise("1080p"@)
        && is_noise("720p"@) && is_noise("480p"@) && is_noise("2160p"@) && is_noise("l"@)
        && is_noise("alt"@) && is_noise("alternativo"@) && is_noise("alternativa"@)
        && is_noise("multi"@));
    let low = ascii_lower(mark);
    assert(low =~= (if mark == "Legendado"@ {
        "legendado"@
    } else if mark == "Dublado"@ {
        "dublado"@
    } else if mark == "4K"@ {
        "4k"@
    } else if mark == "FHD"@ {
        "fhd"@
    } else {
        "h265"@
    }));
    if all_ascii(title) {
        assert forall|i: int| 0 <= i < mark.len() implies is_alnum(#[trigger] mark[i]) && (mark[i] as u32) < 128 by {}
        law_quality_mark_does_not_count_ascii(title, mark);
    }
}

// ---------------------------------------------------------------- parênteses não contam

pub open spec fn is_bracket(c: char) -> bool {
    c == '[' || c == '(' || c == '{' || c == ']' || c == ')' || c == '}'
}

/// Um passo da leitura fora de `[]`, `()` e `{}`.
pub open spec fn unbracket_step(st: (Seq<char>, nat), c: char) -> (Seq<char>, nat) {
    let (out, depth) = st;
    if c == '[' || c == '(' || c == '{' {
        (out, depth + 1)
    } else if c == ']' || c == ')' || c == '}' {
        (out, if depth > 0 { (depth - 1) as nat } else { 0 })
    } else if depth == 0 {
        (out.push(c), depth)
    } else {
        (out, depth)
    }
}

/// A leitura continuada a partir de um estado.
pub open spec fn unbracket_from(st: (Seq<char>, nat), s: Seq<char>) -> (Seq<char>, nat)
    decreases s.len(),
{
    if s.len() == 0 {
        st
    } else {
        unbracket_step(unbracket_from(st, s.drop_last()), s.last())
    }
}

proof fn lemma_unbracket_append(p: Seq<char>, b: Seq<char>)
    ensures
        unbracket_state(p + b) == unbracket_from(unbracket_state(p), b),
    decreases b.len(),
{
    if b.len() == 0 {
        assert(p + b =~= p);
    } else {
        lemma_unbracket_append(p, b.drop_last());
        assert((p + b).drop_last() =~= p + b.drop_last());
        assert((p + b).last() == b.last());
    }
}

proof fn lemma_unbracket_inside(st: (Seq<char>, nat), x: Seq<char>)
    requires
        st.1 >= 1,
        forall|i: int| 0 <= i < x.len() ==> !is_bracket(#[trigger] x[i]),
    ensures
        unbracket_from(st, x) == st,
    decreases x.len(),
{
    if x.len() > 0 {
        assert(!is_bracket(x[x.len() - 1]));
        lemma_unbracket_inside(st, x.drop_last());
    }
}

/// Um trecho entre parênteses, colchetes ou chaves ("(2021)", "[L]") não conta
/// para o título normalizado, e portanto nem para o id: tirar o trecho dá o
/// mesmo título normalizado, onde quer que ele esteja.
pub proof fn law_brackets_do_not_count(a: Seq<char>, open: char, x: Seq<char>, close: char, b: Seq<char>)
    requires
        open == '[' || open == '(' || open == '{',
        close == ']' || close == ')' || close == '}',
        forall|i: int| 0 <= i < x.len() ==> !is_bracket(#[trigger] x[i]),
    ensures
        normalize_spec(a + seq![open] + x + seq![close] + b) == normalize_spec(a + b),
{
    let st = unbracket_state(a);
    let opened = unbracket_step(st, open);
    assert(opened.1 >= 1);
    lemma_unbracket_append(a, seq![open]);
    assert(unbracket_from(st, seq![open]) == opened) by {
        assert(seq![open].drop_last() =~= Seq::<char>::empty());
        assert(unbracket_from(st, Seq::<char>::empty()) == st);
        assert(seq![open].last() == open);
    }
    lemma_unbracket_append(a + seq![open], x);
    lemma_unbracket_inside(opened, x);
    lemma_unbracket_append(a + seq![open] + x, seq![close]);
    assert(unbracket_from(opened, seq![close]) == st) by {
        assert(seq![close].drop_last() =~= Seq::<char>::empty());
        assert(unbracket_from(opened, Seq::<char>::empty()) == opened);
        assert(seq![close].last() == close);
    }
    assert(unbracket_state(a + seq![open] + x + seq![close]) == st);
    lemma_unbracket_append(a + seq![open] + x + seq![close], b);
    lemma_unbracket_append(a, b);
}

// ---------------------------------------------------------------- chaves sem ambiguidade

/// Ano como entra na chave: sem ano conta como zero.
pub open spec fn year_number(year: Option<i64>) -> int {
    match year {
        Some(y) => y as int,
        None => 0,
    }
}

/// Dois textos sem U+001F seguidos do separador só coincidem se as duas partes
/// coincidem.
pub proof fn lemma_split_at_sep(a1: Seq<char>, r1: Seq<char>, a2: Seq<char>, r2: Seq<char>)
    requires
        !a1.contains('\u{1f}'),
        !a2.contains('\u{1f}'),
        a1 + unit_sep() + r1 == a2 + unit_sep() + r2,
    ensures
        a1 == a2,
        r1 == r2,
{
    let w = a1 + unit_sep() + r1;
    if a1.len() < a2.len() {
        assert(w[a1.len() as int] == '\u{1f}');
        assert((a2 + unit_sep() + r2)[a1.len() as int] == a2[a1.len() as int]);
        assert(a2.contains('\u{1f}'));
    } else if a2.len() < a1.len() {
        assert((a2 + unit_sep() + r2)[a2.len() as int] == '\u{1f}');
        assert(w[a2.len() as int] == a1[a2.len() as int]);
        assert(a1.contains('\u{1f}'));
    } else {
        assert(a1 =~= w.take(a1.len() as int));
        assert(a2 =~= (a2 + unit_sep() + r2).take(a2.len() as int));
        assert(r1 =~= w.skip(a1.len() + 1int));
        assert(r2 =~= (a2 + unit_sep() + r2).skip(a2.len() + 1int));
    }
}

/// O texto que vai para o hash de um título separa sem ambiguidade tipo,
/// título normalizado e ano (sem ano conta como zero), desde que tipo e título
/// não tragam o separador U+001F: títulos que diferem em qualquer dos três
/// nunca entram no SHA-256 com o mesmo texto.
pub proof fn law_item_key_injective(
    kind1: Seq<char>,
    norm1: Seq<char>,
    year1: Option<i64>,
    kind2: Seq<char>,
    norm2: Seq<char>,
    year2: Option<i64>,
)
    requires
        !kind1.contains('\u{1f}'),
        !norm1.contains('\u{1f}'),
        !kind2.contains('\u{1f}'),
        !norm2.contains('\u{1f}'),
        item_key(kind1, norm1, year1) == item_key(kind2, norm2, year2),
    ensures
        kind1 == kind2,
        norm1 == norm2,
        year_number(year1) == year_number(year2),
{
    let (t1, t2) = (int_text(year_number(year1)), int_text(year_number(year2)));
    assert(item_key(kind1, norm1, year1) =~= kind1 + unit_sep() + (norm1 + unit_sep() + t1));
    assert(item_key(kind2, norm2, year2) =~= kind2 + unit_sep() + (norm2 + unit_sep() + t2));
    lemma_split_at_sep(kind1, norm1 + unit_sep() + t1, kind2, norm2 + unit_sep() + t2);
    lemma_split_at_sep(norm1, t1, norm2, t2);
    lemma_int_text_injective(year_number(year1), year_number(year2));
}

/// Na mesma série, temporada e episódio entram no hash sem ambiguidade: (1, 2)
/// e (2, 1) nunca dão o mesmo texto.
pub proof fn law_episode_key_injective(series_id: Seq<char>, season1: i64, episode1: i64, season2: i64, episode2: i64)
    requires
        !series_id.contains('\u{1f}'),
        episode_key(series_id, season1, episode1) == episode_key(series_id, season2, episode2),
    ensures
        season1 == season2,
        episode1 == episode2,
{
    let (s1, e1) = (int_text(season1 as int), int_text(episode1 as int));
    let (s2, e2) = (int_text(season2 as int), int_text(episode2 as int));
    lemma_int_text_lacks(season1 as int, '\u{1f}');
    lemma_int_text_lacks(season2 as int, '\u{1f}');
    assert(episode_key(series_id, season1, episode1) =~= series_id + unit_sep() + (s1 + unit_sep() + e1));
    assert(episode_key(series_id, season2, episode2) =~= series_id + unit_sep() + (s2 + unit_sep() + e2));
    lemma_split_at_sep(series_id, s1 + unit_sep() + e1, series_id, s2 + unit_sep() + e2);
    lemma_split_at_sep(s1, e1, s2, e2);
    lemma_int_text_injective(season1 as int, season2 as int);
    lemma_int_text_injective(episode1 as int, episode2 as int);
}

// ---------------------------------------------------------------- chave numérica

/// Valor de um dígito hexadecimal minúsculo.
pub open spec fn nibble(c: char) -> nat {
    if '0' <= c <= '9' {
        (c as nat - '0' as nat) as nat
    } else {
        (c as nat - 'a' as nat + 10) as nat
    }
}

/// O texto hexadecimal lido como número, dígito mais significativo primeiro.
pub open spec fn hex_value(s: Seq<char>) -> nat
    decreases s.len(),
{
    if s.len() == 0 {
        0
    } else {
        hex_value(s.drop_last()) * 16 + nibble(s.last())
    }
}

pub open spec fn pow16(n: nat) -> nat
    decreases n,
{
    if n == 0 {
        1
    } else {
        16 * pow16((n - 1) as nat)
    }
}

pub open spec fn all_lower_hex(s: Seq<char>) -> bool {
    forall|i: int| 0 <= i < s.len() ==> is_lower_hex(#[trigger] s[i])
}

proof fn lemma_pow16_monotonic(a: nat, b: nat)
    requires
        a <= b,
    ensures
        pow16(a) <= pow16(b),
        pow16(a) >= 1,
    decreases b,
{
    if b > 0 && a < b {
        lemma_pow16_monotonic(a, (b - 1) as nat);
    }
    if a > 0 {
        lemma_pow16_monotonic((a - 1) as nat, (a - 1) as nat);
    }
}

proof fn lemma_hex_value_bound(s: Seq<char>)
    requires
        all_lower_hex(s),
    ensures
        hex_value(s) < pow16(s.len()),
    decreases s.len(),
{
    if s.len() > 0 {
        let p = s.drop_last();
        assert(is_lower_hex(s[s.len() - 1]));
        assert forall|i: int| 0 <= i < p.len() implies is_lower_hex(#[trigger] p[i]) by {
            assert(p[i] == s[i]);
        }
        lemma_hex_value_bound(p);
        let h = hex_value(p);
        let q = pow16(p.len());
        let d = nibble(s.last());
        assert(d < 16);
        assert(h * 16 + d < q * 16) by (nonlinear_arith)
            requires
                h < q,
                d < 16,
        ;
    }
}

/// Textos hexadecimais minúsculos do mesmo tamanho e mesmo valor são iguais.
pub proof fn lemma_hex_value_injective(a: Seq<char>, b: Seq<char>)
    requires
        a.len() == b.len(),
        all_lower_hex(a),
        all_lower_hex(b),
        hex_value(a) == hex_value(b),
    ensures
        a == b,
    decreases a.len(),
{
    if a.len() > 0 {
        let (pa, pb) = (a.drop_last(), b.drop_last());
        let (ca, cb) = (a.last(), b.last());
        assert(is_lower_hex(a[a.len() - 1]) && is_lower_hex(b[b.len() - 1]));
        let (ha, hb, da, db) = (hex_value(pa), hex_value(pb), nibble(ca), nibble(cb));
        assert(ha == hb && da == db) by (nonlinear_arith)
            requires
                ha * 16 + da == hb * 16 + db,
                da < 16,
                db < 16,
        ;
        assert(ca == cb);
        assert forall|i: int| 0 <= i < pa.len() implies is_lower_hex(#[trigger] pa[i]) by {
            assert(pa[i] == a[i]);
        }
        assert forall|i: int| 0 <= i < pb.len() implies is_lower_hex(#[trigger] pb[i]) by {
            assert(pb[i] == b[i]);
        }
        lemma_hex_value_injective(pa, pb);
        assert(a =~= pa.push(ca));
        assert(b =~= pb.push(cb));
    }
}

/// Um id como inteiro de 128 bits: 32 dígitos hexadecimais cabem exatamente.
pub fn id_key(id: &str) -> (k: u128)
    requires
        is_id_text(id@),
    ensures
        k == hex_value(id@),
{
    let v = chars_of(id);
    let mut k: u128 = 0;
    let mut i: usize = 0;
    proof {
        reveal_with_fuel(pow16, 33);
        assert(pow16(32) == 0x1_0000_0000_0000_0000_0000_0000_0000_0000);
    }
    while i < v.len()
        invariant
            v@ == id@,
            is_id_text(id@),
            i <= 32,
            k == hex_value(v@.take(i as int)),
            pow16(32) == 0x1_0000_0000_0000_0000_0000_0000_0000_0000,
        decreases v@.len() - i,
    {
        let c = v[i];
        assert(is_lower_hex(id@[i as int]));
        let d: u128 = if '0' <= c && c <= '9' {
            (c as u32 - '0' as u32) as u128
        } else {
            (c as u32 - 'a' as u32 + 10) as u128
        };
        let ghost t = v@.take(i + 1);
        assert(t.drop_last() =~= v@.take(i as int));
        assert(all_lower_hex(t));
        proof {
            lemma_hex_value_bound(t);
            lemma_pow16_monotonic((i + 1) as nat, 32);
        }
        assert(hex_value(t) == k * 16 + d);
        k = k * 16 + d;
        i += 1;
    }
    assert(v@.take(32) =~= v@);
    k
}

} // verus!
