//! Primitivas de texto sobre `Seq<char>`: o que o resto da biblioteca precisa
//! de `char`, `str` e da normalização Unicode.

use unicode_normalization::UnicodeNormalization;
use vstd::prelude::*;

verus! {

/// Propriedade Unicode `White_Space` (PropList.txt), a que `char::is_whitespace`
/// consulta: tabulação a retorno de carro, espaço, NEL, espaço sem quebra, o
/// espaço ogâmico, os espaços tipográficos U+2000 a U+200A, os separadores de
/// linha e de parágrafo, o espaço estreito, o espaço matemático e o espaço
/// ideográfico.
pub open spec fn is_white(c: char) -> bool {
    ||| ('\u{9}' <= c <= '\u{d}')
    ||| c == ' '
    ||| c == '\u{85}'
    ||| c == '\u{a0}'
    ||| c == '\u{1680}'
    ||| ('\u{2000}' <= c <= '\u{200a}')
    ||| c == '\u{2028}'
    ||| c == '\u{2029}'
    ||| c == '\u{202f}'
    ||| c == '\u{205f}'
    ||| c == '\u{3000}'
}

pub open spec fn is_ascii_letter(c: char) -> bool {
    ('a' <= c <= 'z') || ('A' <= c <= 'Z')
}

/// Caixa baixa ASCII, caractere a caractere.
pub open spec fn ascii_lower(s: Seq<char>) -> Seq<char> {
    Seq::new(s.len(), |i: int| if 'A' <= s[i] <= 'Z' { ((s[i] as u32) + 32) as char } else { s[i] })
}

/// Caixa alta ASCII, caractere a caractere.
pub open spec fn ascii_upper(s: Seq<char>) -> Seq<char> {
    Seq::new(s.len(), |i: int| if 'a' <= s[i] <= 'z' { ((s[i] as u32) - 32) as char } else { s[i] })
}

pub open spec fn all_ascii(s: Seq<char>) -> bool {
    forall|i: int| 0 <= i < s.len() ==> (#[trigger] s[i] as u32) < 128
}

/// Resultado de `char::is_alphanumeric` (`Alphabetic` ou `Numeric`) fora do
/// ASCII.
pub uninterp spec fn unicode_alnum(c: char) -> bool;

/// `char::is_alphanumeric`: no ASCII, letras e dígitos.
pub open spec fn is_alnum(c: char) -> bool {
    if (c as u32) < 128 { is_ascii_letter(c) || ('0' <= c <= '9') } else { unicode_alnum(c) }
}

/// Resultado de `char::is_numeric` (categorias `Nd`, `Nl`, `No`) fora do
/// ASCII.
pub uninterp spec fn unicode_numeric(c: char) -> bool;

/// `char::is_numeric`: no ASCII, só os dígitos.
pub open spec fn is_num(c: char) -> bool {
    if (c as u32) < 128 { '0' <= c <= '9' } else { unicode_numeric(c) }
}

/// Resultado de `str::to_lowercase` para texto que não é só ASCII.
pub uninterp spec fn unicode_lower(s: Seq<char>) -> Seq<char>;

/// `str::to_lowercase`: texto só ASCII desce caractere a caractere.
pub open spec fn lower(s: Seq<char>) -> Seq<char> {
    if all_ascii(s) { ascii_lower(s) } else { unicode_lower(s) }
}

/// Resultado de `str::to_uppercase` para texto que não é só ASCII.
pub uninterp spec fn unicode_upper(s: Seq<char>) -> Seq<char>;

/// `str::to_uppercase`: texto só ASCII sobe caractere a caractere.
pub open spec fn upper(s: Seq<char>) -> Seq<char> {
    if all_ascii(s) { ascii_upper(s) } else { unicode_upper(s) }
}

/// Resultado de `UnicodeNormalization::nfd` (decomposição canônica) para texto
/// que não é só ASCII.
pub uninterp spec fn unicode_nfd(s: Seq<char>) -> Seq<char>;

/// `UnicodeNormalization::nfd`: texto só ASCII sai como entrou.
pub open spec fn nfd(s: Seq<char>) -> Seq<char> {
    if all_ascii(s) { s } else { unicode_nfd(s) }
}

/// `char::is_whitespace`: a propriedade `White_Space`, cujos 25 pontos de
/// código `is_white` lista.
#[verifier::external_body]
pub(crate) fn char_is_whitespace(c: char) -> (b: bool)
    ensures
        b == is_white(c),
{
    c.is_whitespace()
}

/// `char::is_alphanumeric`: no ASCII, letras e dígitos são alfanuméricos e o
/// resto não (pontuação, símbolos, espaço e controle não são `Alphabetic` nem
/// `Numeric`); fora do ASCII o contrato só nomeia o resultado.
#[verifier::external_body]
pub(crate) fn char_is_alphanumeric(c: char) -> (b: bool)
    ensures
        b == is_alnum(c),
        (c as u32) >= 128 ==> b == unicode_alnum(c),
{
    c.is_alphanumeric()
}

/// `char::is_numeric`: no ASCII, só os dígitos `0`-`9` (categoria `Nd`); fora
/// do ASCII o contrato só nomeia o resultado.
#[verifier::external_body]
pub(crate) fn char_is_numeric(c: char) -> (b: bool)
    ensures
        b == is_num(c),
        (c as u32) >= 128 ==> b == unicode_numeric(c),
{
    c.is_numeric()
}

/// `str::to_lowercase`: texto só ASCII desce caractere a caractere (`A`-`Z`
/// viram `a`-`z`); para o resto o contrato só nomeia o resultado.
#[verifier::external_body]
pub(crate) fn to_lowercase(s: &str) -> (r: String)
    ensures
        r@ == lower(s@),
        !all_ascii(s@) ==> r@ == unicode_lower(s@),
{
    s.to_lowercase()
}

/// `str::to_uppercase`: texto só ASCII sobe caractere a caractere (`a`-`z`
/// viram `A`-`Z`); para o resto o contrato só nomeia o resultado.
#[verifier::external_body]
pub(crate) fn to_uppercase(s: &str) -> (r: String)
    ensures
        r@ == upper(s@),
        !all_ascii(s@) ==> r@ == unicode_upper(s@),
{
    s.to_uppercase()
}

/// `UnicodeNormalization::nfd` do crate `unicode-normalization`, recolhido em
/// um `Vec<char>`. ASCII de 7 bits nunca se decompõe (`decompose`, em
/// `normalize.rs`) e tem classe combinante zero, então texto só ASCII sai como
/// entrou; para o resto o contrato só nomeia o resultado.
#[verifier::external_body]
pub(crate) fn nfd_chars(s: &str) -> (r: Vec<char>)
    ensures
        r@ == nfd(s@),
        !all_ascii(s@) ==> r@ == unicode_nfd(s@),
{
    s.nfd().collect()
}

/// Os caracteres de `s`, na ordem.
pub fn chars_of(s: &str) -> (r: Vec<char>)
    ensures
        r@ == s@,
{
    broadcast use vstd::string::group_string_axioms;
    let mut r: Vec<char> = Vec::new();
    for c in it: s.chars()
        invariant
            r@ == it.seq().take(it.index() as int),
    {
        r.push(c);
        assert(r@ =~= it.seq().take(it.index() + 1));
    }
    assert(r@ =~= s@);
    r
}

/// `String::from_iter` sobre os caracteres dados (`FromIterator<&char>`):
/// o texto com exatamente esses caracteres, na ordem.
#[verifier::external_body]
pub(crate) fn string_of(v: &[char]) -> (r: String)
    ensures
        r@ == v@,
{
    String::from_iter(v.iter())
}

pub open spec fn is_digit(c: char) -> bool {
    '0' <= c <= '9'
}

/// `char::is_ascii_digit`.
pub fn ascii_digit(c: char) -> (b: bool)
    ensures
        b == is_digit(c),
{
    '0' <= c && c <= '9'
}


pub proof fn lemma_deep_view_chars(v: &Vec<char>)
    ensures
        v.deep_view() == v@,
{
    assert(v.deep_view() =~= v@);
}

// ---------------------------------------------------------------- trim

pub open spec fn trim_start(s: Seq<char>) -> Seq<char>
    decreases s.len(),
{
    if s.len() > 0 && is_white(s[0]) {
        trim_start(s.drop_first())
    } else {
        s
    }
}

pub open spec fn trim_end(s: Seq<char>) -> Seq<char>
    decreases s.len(),
{
    if s.len() > 0 && is_white(s.last()) {
        trim_end(s.drop_last())
    } else {
        s
    }
}

/// `str::trim`: tira `White_Space` das duas pontas.
pub open spec fn trim(s: Seq<char>) -> Seq<char> {
    trim_end(trim_start(s))
}

proof fn lemma_trim_start_head(s: Seq<char>)
    ensures
        trim_start(s).len() == 0 || !is_white(trim_start(s)[0]),
    decreases s.len(),
{
    if s.len() > 0 && is_white(s[0]) {
        lemma_trim_start_head(s.drop_first());
    }
}

proof fn lemma_trim_end_prefix(s: Seq<char>)
    ensures
        trim_end(s).len() <= s.len(),
        trim_end(s) == s.take(trim_end(s).len() as int),
        trim_end(s).len() == 0 || !is_white(trim_end(s).last()),
    decreases s.len(),
{
    if s.len() > 0 && is_white(s.last()) {
        lemma_trim_end_prefix(s.drop_last());
        assert(s.drop_last().take(trim_end(s).len() as int) =~= s.take(trim_end(s).len() as int));
    } else {
        assert(s.take(s.len() as int) =~= s);
    }
}

/// Aparar de novo não muda nada.
pub proof fn lemma_trim_idempotent(s: Seq<char>)
    ensures
        trim(trim(s)) == trim(s),
{
    let t = trim_start(s);
    lemma_trim_start_head(s);
    lemma_trim_end_prefix(t);
    let u = trim_end(t);
    if u.len() > 0 {
        assert(u[0] == t[0]);
        assert(trim_start(u) == u);
        assert(trim_end(u) == u);
    } else {
        assert(trim_start(u) == u);
        assert(trim_end(u) == u);
    }
}

/// Cópia de `v[from..to]`.
pub fn slice_chars(v: &[char], from: usize, to: usize) -> (r: Vec<char>)
    requires
        from <= to <= v@.len(),
    ensures
        r@ == v@.subrange(from as int, to as int),
{
    let mut r: Vec<char> = Vec::new();
    let mut i = from;
    while i < to
        invariant
            from <= i <= to <= v@.len(),
            r@ == v@.subrange(from as int, i as int),
        decreases to - i,
    {
        r.push(v[i]);
        i += 1;
        assert(r@ =~= v@.subrange(from as int, i as int));
    }
    r
}

pub fn trim_chars(v: &[char]) -> (r: Vec<char>)
    ensures
        r@ == trim(v@),
{
    let n = v.len();
    let mut i: usize = 0;
    assert(v@.subrange(0, n as int) =~= v@);
    while i < n && char_is_whitespace(v[i])
        invariant
            i <= n == v@.len(),
            trim_start(v@) == trim_start(v@.subrange(i as int, n as int)),
        decreases n - i,
    {
        assert(v@.subrange(i as int, n as int).drop_first() =~= v@.subrange(i + 1, n as int));
        i += 1;
    }
    let mut j: usize = n;
    let ghost t = v@.subrange(i as int, n as int);
    while j > i && char_is_whitespace(v[j - 1])
        invariant
            i <= j <= n == v@.len(),
            t == v@.subrange(i as int, n as int),
            trim_end(t) == trim_end(v@.subrange(i as int, j as int)),
        decreases j - i,
    {
        assert(v@.subrange(i as int, j as int).drop_last() =~= v@.subrange(i as int, j - 1));
        j -= 1;
    }
    proof {
        if i < n {
            assert(!is_white(v@[i as int]));
        }
        assert(trim_start(v@) == t);
    }
    slice_chars(v, i, j)
}

pub fn trim_str(s: &str) -> (r: Vec<char>)
    ensures
        r@ == trim(s@),
{
    let v = chars_of(s);
    trim_chars(v.as_slice())
}

// ---------------------------------------------------------------- words

/// Estado de `str::split_whitespace` depois de ler `s`: palavras fechadas e a
/// palavra em aberto.
pub open spec fn split_state(s: Seq<char>) -> (Seq<Seq<char>>, Seq<char>)
    decreases s.len(),
{
    if s.len() == 0 {
        (seq![], seq![])
    } else {
        let (done, cur) = split_state(s.drop_last());
        if is_white(s.last()) {
            if cur.len() > 0 {
                (done.push(cur), seq![])
            } else {
                (done, cur)
            }
        } else {
            (done, cur.push(s.last()))
        }
    }
}

/// `str::split_whitespace`.
pub open spec fn words(s: Seq<char>) -> Seq<Seq<char>> {
    let (done, cur) = split_state(s);
    if cur.len() > 0 {
        done.push(cur)
    } else {
        done
    }
}

/// Acrescentar caracteres que não são `White_Space` só estende a palavra em
/// aberto.
pub proof fn lemma_split_state_extend(x: Seq<char>, w: Seq<char>)
    requires
        forall|i: int| 0 <= i < w.len() ==> !is_white(#[trigger] w[i]),
    ensures
        split_state(x + w) == (split_state(x).0, split_state(x).1 + w),
    decreases w.len(),
{
    if w.len() == 0 {
        assert(x + w =~= x);
        assert(split_state(x).1 + w =~= split_state(x).1);
    } else {
        let p = w.drop_last();
        assert forall|i: int| 0 <= i < p.len() implies !is_white(#[trigger] p[i]) by {
            assert(p[i] == w[i]);
        }
        lemma_split_state_extend(x, p);
        assert((x + w).drop_last() =~= x + p);
        assert((x + w).last() == w.last());
        assert(!is_white(w[w.len() - 1]));
        assert(split_state(x).1 + p.push(w.last()) =~= split_state(x).1 + w);
    }
}

/// Um espaço seguido de uma palavra sem `White_Space` acrescenta exatamente
/// essa palavra às palavras do texto.
pub proof fn lemma_words_push(x: Seq<char>, w: Seq<char>)
    requires
        w.len() > 0,
        forall|i: int| 0 <= i < w.len() ==> !is_white(#[trigger] w[i]),
    ensures
        words(x + seq![' '] + w) == words(x).push(w),
{
    let xs = x + seq![' '];
    assert(xs.drop_last() =~= x);
    assert(xs.last() == ' ');
    assert(split_state(xs) == (words(x), Seq::<char>::empty()));
    lemma_split_state_extend(xs, w);
    assert(Seq::<char>::empty() + w =~= w);
    assert(x + seq![' '] + w =~= xs + w);
}

pub fn words_of(v: &[char]) -> (r: Vec<Vec<char>>)
    ensures
        r.deep_view() == words(v@),
{
    let n = v.len();
    let mut done: Vec<Vec<char>> = Vec::new();
    let mut cur: Vec<char> = Vec::new();
    let mut i: usize = 0;
    while i < n
        invariant
            i <= n == v@.len(),
            (done.deep_view(), cur@) == split_state(v@.take(i as int)),
        decreases n - i,
    {
        let c = v[i];
        assert(v@.take(i + 1).drop_last() =~= v@.take(i as int));
        if char_is_whitespace(c) {
            if cur.len() > 0 {
                let ghost before = done.deep_view();
                proof { lemma_deep_view_chars(&cur); }
                done.push(cur);
                assert(done.deep_view() =~= before.push(split_state(v@.take(i as int)).1));
                cur = Vec::new();
            }
        } else {
            cur.push(c);
        }
        i += 1;
    }
    assert(v@.take(n as int) =~= v@);
    if cur.len() > 0 {
        let ghost before = done.deep_view();
        let ghost c = cur@;
        proof { lemma_deep_view_chars(&cur); }
        done.push(cur);
        assert(done.deep_view() =~= before.push(c));
    }
    done
}

// ---------------------------------------------------------------- join

/// `[..].join(sep)`.
pub open spec fn join(parts: Seq<Seq<char>>, sep: Seq<char>) -> Seq<char>
    decreases parts.len(),
{
    if parts.len() == 0 {
        seq![]
    } else if parts.len() == 1 {
        parts[0]
    } else {
        join(parts.drop_last(), sep) + sep + parts.last()
    }
}

pub fn join_chars(parts: &Vec<Vec<char>>, sep: &[char]) -> (r: Vec<char>)
    ensures
        r@ == join(parts.deep_view(), sep@),
{
    let mut r: Vec<char> = Vec::new();
    let n = parts.len();
    let mut i: usize = 0;
    while i < n
        invariant
            i <= n == parts.deep_view().len(),
            r@ == join(parts.deep_view().take(i as int), sep@),
        decreases n - i,
    {
        let ghost before = r@;
        if i > 0 {
            let mut k: usize = 0;
            while k < sep.len()
                invariant
                    k <= sep@.len(),
                    r@ == before + sep@.take(k as int),
                decreases sep@.len() - k,
            {
                r.push(sep[k]);
                k += 1;
                assert(r@ =~= before + sep@.take(k as int));
            }
        }
        let ghost mid = r@;
        let part = &parts[i];
        let mut k: usize = 0;
        while k < part.len()
            invariant
                k <= part@.len(),
                r@ == mid + part@.take(k as int),
            decreases part@.len() - k,
        {
            r.push(part[k]);
            k += 1;
            assert(r@ =~= mid + part@.take(k as int));
        }
        proof {
            let ps = parts.deep_view();
            assert(ps.take(i + 1).drop_last() =~= ps.take(i as int));
            assert(ps[i as int] == part@);
            assert(sep@.take(sep@.len() as int) =~= sep@);
            assert(part@.take(part@.len() as int) =~= part@);
            if i == 0 {
                assert(r@ =~= join(ps.take(1), sep@));
            } else {
                assert(r@ =~= join(ps.take(i + 1), sep@));
            }
        }
        i += 1;
    }
    assert(parts.deep_view().take(n as int) =~= parts.deep_view());
    r
}


// ---------------------------------------------------------------- fold

/// Marcas combinantes do bloco U+0300..U+036F, o que a NFD separa dos acentos.
pub open spec fn is_mark(c: char) -> bool {
    '\u{0300}' <= c <= '\u{036f}'
}

/// Depois da NFD: marcas somem, o que não é alfanumérico vira espaço.
pub open spec fn fold_chars(s: Seq<char>) -> Seq<char>
    decreases s.len(),
{
    if s.len() == 0 {
        seq![]
    } else {
        let r = fold_chars(s.drop_last());
        let c = s.last();
        if is_mark(c) {
            r
        } else if is_alnum(c) {
            r.push(c)
        } else {
            r.push(' ')
        }
    }
}

/// Minúsculas, decomposição canônica, sem acento, não alfanumérico vira espaço.
pub open spec fn fold(s: Seq<char>) -> Seq<char> {
    fold_chars(nfd(lower(s)))
}

pub fn fold_str(s: &str) -> (r: Vec<char>)
    ensures
        r@ == fold(s@),
{
    let lowered = to_lowercase(s);
    let decomposed = nfd_chars(lowered.as_str());
    let n = decomposed.len();
    let mut r: Vec<char> = Vec::new();
    let mut i: usize = 0;
    while i < n
        invariant
            i <= n == decomposed@.len(),
            decomposed@ == nfd(lower(s@)),
            r@ == fold_chars(decomposed@.take(i as int)),
        decreases n - i,
    {
        let c = decomposed[i];
        assert(decomposed@.take(i + 1).drop_last() =~= decomposed@.take(i as int));
        if '\u{0300}' <= c && c <= '\u{036f}' {
        } else if char_is_alphanumeric(c) {
            r.push(c);
        } else {
            r.push(' ');
        }
        i += 1;
    }
    assert(decomposed@.take(n as int) =~= decomposed@);
    r
}

// ---------------------------------------------------------------- números

pub open spec fn all_digits(s: Seq<char>) -> bool {
    forall|i: int| 0 <= i < s.len() ==> is_digit(#[trigger] s[i])
}

pub open spec fn digit_value(c: char) -> int {
    (c as int) - ('0' as int)
}

/// Valor decimal de uma sequência de dígitos ASCII.
pub open spec fn digits_value(s: Seq<char>) -> int
    decreases s.len(),
{
    if s.len() == 0 {
        0
    } else {
        digits_value(s.drop_last()) * 10 + digit_value(s.last())
    }
}

/// Texto aceito por `str::parse::<i64>`: sinal opcional e ao menos um dígito,
/// com o valor matemático que ele escreve (sem limite de tamanho).
pub open spec fn int_literal(s: Seq<char>) -> Option<int> {
    if s.len() > 0 && (s[0] == '+' || s[0] == '-') {
        let d = s.drop_first();
        if d.len() > 0 && all_digits(d) {
            Some(if s[0] == '-' { -digits_value(d) } else { digits_value(d) })
        } else {
            None
        }
    } else if s.len() > 0 && all_digits(s) {
        Some(digits_value(s))
    } else {
        None
    }
}

/// `str::parse::<i64>`: o literal, quando cabe em `i64`.
pub open spec fn parse_i64(s: Seq<char>) -> Option<i64> {
    match int_literal(s) {
        Some(v) => if i64::MIN <= v <= i64::MAX {
            Some(v as i64)
        } else {
            None
        },
        None => None,
    }
}

pub proof fn lemma_digits_value_grows(s: Seq<char>, k: int)
    requires
        all_digits(s),
        0 <= k <= s.len(),
    ensures
        0 <= digits_value(s.take(k)) <= digits_value(s),
    decreases s.len(),
{
    if s.len() == 0 {
        assert(s.take(k) =~= s);
    } else if k == s.len() {
        assert(s.take(k) =~= s);
        lemma_digits_value_grows(s.drop_last(), 0);
        assert(s.drop_last().take(0) =~= seq![]);
    } else {
        assert(all_digits(s.drop_last()));
        lemma_digits_value_grows(s.drop_last(), k);
        assert(s.drop_last().take(k) =~= s.take(k));
        assert(is_digit(s.last()));
    }
}

/// Valor dos dígitos `v[from..to]`, ou `None` quando passa de 2^63.
fn digits_bounded(v: &[char], from: usize, to: usize) -> (r: Option<u64>)
    requires
        from <= to <= v@.len(),
        all_digits(v@.subrange(from as int, to as int)),
    ensures
        match r {
            Some(x) => x == digits_value(v@.subrange(from as int, to as int))
                && x <= 0x8000_0000_0000_0000u64,
            None => digits_value(v@.subrange(from as int, to as int)) > 0x8000_0000_0000_0000u64,
        },
{
    let ghost d = v@.subrange(from as int, to as int);
    let mut acc: u64 = 0;
    let mut i = from;
    while i < to
        invariant
            from <= i <= to <= v@.len(),
            d == v@.subrange(from as int, to as int),
            all_digits(d),
            acc == digits_value(d.take(i - from)),
            acc <= 0x8000_0000_0000_0000u64,
        decreases to - i,
    {
        let c = v[i];
        assert(d[i - from] == c);
        assert(d.take(i - from + 1).drop_last() =~= d.take(i - from));
        let digit = (c as u64) - ('0' as u64);
        if acc > 922_337_203_685_477_580u64 {
            proof {
                lemma_digits_value_grows(d, i - from + 1);
            }
            return None;
        }
        let next = acc * 10 + digit;
        if next > 0x8000_0000_0000_0000u64 {
            proof {
                lemma_digits_value_grows(d, i - from + 1);
            }
            return None;
        }
        acc = next;
        i += 1;
    }
    assert(d.take(to - from) =~= d);
    Some(acc)
}

/// `str::parse::<i64>` sobre `v[from..to]`.
pub fn parse_i64_chars(v: &[char], from: usize, to: usize) -> (r: Option<i64>)
    requires
        from <= to <= v@.len(),
    ensures
        r == parse_i64(v@.subrange(from as int, to as int)),
{
    let ghost s = v@.subrange(from as int, to as int);
    if from == to {
        return None;
    }
    let first = v[from];
    let negative = first == '-';
    let start = if first == '+' || first == '-' { from + 1 } else { from };
    assert(s[0] == first);
    if start == to {
        assert(s.drop_first().len() == 0);
        return None;
    }
    let mut i = start;
    while i < to
        invariant
            start <= i <= to <= v@.len(),
            from < to,
            s == v@.subrange(from as int, to as int),
            s[0] == v@[from as int],
            start == (if s[0] == '+' || s[0] == '-' { from + 1 } else { from as int }),
            forall|k: int| start <= k < i ==> is_digit(#[trigger] v@[k]),
        decreases to - i,
    {
        if !ascii_digit(v[i]) {
            proof {
                if start == from {
                    assert(!is_digit(s[i - from]));
                } else {
                    assert(!is_digit(s.drop_first()[i - start]));
                }
            }
            return None;
        }
        i += 1;
    }
    let ghost d = v@.subrange(start as int, to as int);
    assert(all_digits(d)) by {
        assert forall|k: int| 0 <= k < d.len() implies is_digit(#[trigger] d[k]) by {
            assert(d[k] == v@[start + k]);
        }
    }
    proof {
        if start > from {
            assert(s.drop_first() =~= d);
        } else {
            assert(s =~= d);
        }
    }
    match digits_bounded(v, start, to) {
        None => None,
        Some(x) => {
            if negative {
                if x == 0x8000_0000_0000_0000u64 {
                    Some(i64::MIN)
                } else {
                    Some(-(x as i64))
                }
            } else if x == 0x8000_0000_0000_0000u64 {
                None
            } else {
                Some(x as i64)
            }
        },
    }
}

// ---------------------------------------------------------------- Display

pub open spec fn digit_char(n: nat) -> char
    recommends
        n < 10,
{
    (n + ('0' as nat)) as char
}

/// Dígitos decimais de `n`, sem zeros à esquerda.
pub open spec fn nat_text(n: nat) -> Seq<char>
    decreases n,
{
    if n < 10 {
        seq![digit_char(n)]
    } else {
        nat_text(n / 10).push(digit_char(n % 10))
    }
}

/// `Display` de inteiro: sinal de menos e dígitos decimais.
pub open spec fn int_text(v: int) -> Seq<char> {
    if v < 0 {
        seq!['-'] + nat_text((-v) as nat)
    } else {
        nat_text(v as nat)
    }
}

/// O texto decimal de um natural tem só dígitos ASCII e ao menos um.
pub proof fn lemma_nat_text_digits(n: nat)
    ensures
        nat_text(n).len() >= 1,
        n >= 10 ==> nat_text(n).len() >= 2,
        forall|i: int| 0 <= i < nat_text(n).len() ==> '0' <= #[trigger] nat_text(n)[i] <= '9',
    decreases n,
{
    if n >= 10 {
        lemma_nat_text_digits(n / 10);
        let p = nat_text(n / 10);
        assert forall|i: int| 0 <= i < nat_text(n).len() implies '0' <= #[trigger] nat_text(n)[i] <= '9' by {
            if i < p.len() {
                assert(nat_text(n)[i] == p[i]);
            }
        }
    }
}

/// Naturais diferentes têm textos decimais diferentes.
pub proof fn lemma_nat_text_injective(a: nat, b: nat)
    requires
        nat_text(a) == nat_text(b),
    ensures
        a == b,
    decreases a,
{
    lemma_nat_text_digits(a);
    lemma_nat_text_digits(b);
    if a >= 10 && b >= 10 {
        let (pa, pb) = (nat_text(a / 10), nat_text(b / 10));
        assert(nat_text(a).drop_last() =~= pa);
        assert(nat_text(b).drop_last() =~= pb);
        lemma_nat_text_injective(a / 10, b / 10);
        assert(nat_text(a).last() == digit_char(a % 10));
        assert(nat_text(b).last() == digit_char(b % 10));
    } else if a < 10 && b < 10 {
        assert(nat_text(a)[0] == digit_char(a));
        assert(nat_text(b)[0] == digit_char(b));
    }
}

/// Inteiros diferentes têm textos decimais diferentes.
pub proof fn lemma_int_text_injective(a: int, b: int)
    requires
        int_text(a) == int_text(b),
    ensures
        a == b,
{
    lemma_nat_text_digits((-a) as nat);
    lemma_nat_text_digits((-b) as nat);
    lemma_nat_text_digits(a as nat);
    lemma_nat_text_digits(b as nat);
    if a < 0 && b < 0 {
        assert(int_text(a).drop_first() =~= nat_text((-a) as nat));
        assert(int_text(b).drop_first() =~= nat_text((-b) as nat));
        lemma_nat_text_injective((-a) as nat, (-b) as nat);
    } else if a >= 0 && b >= 0 {
        lemma_nat_text_injective(a as nat, b as nat);
    } else if a < 0 {
        assert(int_text(a)[0] == '-');
        assert(int_text(b)[0] == nat_text(b as nat)[0]);
    } else {
        assert(int_text(b)[0] == '-');
        assert(int_text(a)[0] == nat_text(a as nat)[0]);
    }
}

/// O texto decimal de um inteiro não tem `c` se `c` não é dígito nem `-`.
pub proof fn lemma_int_text_lacks(v: int, c: char)
    requires
        !('0' <= c <= '9'),
        c != '-',
    ensures
        !int_text(v).contains(c),
{
    lemma_nat_text_digits((-v) as nat);
    lemma_nat_text_digits(v as nat);
    if int_text(v).contains(c) {
        let i = choose|i: int| 0 <= i < int_text(v).len() && int_text(v)[i] == c;
        if v < 0 {
            if i > 0 {
                assert(int_text(v)[i] == nat_text((-v) as nat)[i - 1]);
            }
        }
    }
}

fn digit_of(d: u64) -> (c: char)
    requires
        d < 10,
    ensures
        c == digit_char(d as nat),
{
    if d == 0 { '0' }
    else if d == 1 { '1' }
    else if d == 2 { '2' }
    else if d == 3 { '3' }
    else if d == 4 { '4' }
    else if d == 5 { '5' }
    else if d == 6 { '6' }
    else if d == 7 { '7' }
    else if d == 8 { '8' }
    else { '9' }
}

/// Acrescenta a `out` os dígitos decimais de `n`.
pub fn push_u64_text(out: &mut Vec<char>, n: u64)
    ensures
        final(out)@ == old(out)@ + nat_text(n as nat),
    decreases n,
{
    if n < 10 {
        out.push(digit_of(n));
        assert(nat_text(n as nat) =~= seq![digit_char(n as nat)]);
    } else {
        push_u64_text(out, n / 10);
        out.push(digit_of(n % 10));
    }
}

/// Acrescenta a `out` o texto decimal de `v`.
pub fn push_i64_text(out: &mut Vec<char>, v: i64)
    ensures
        final(out)@ == old(out)@ + int_text(v as int),
{
    if v < 0 {
        out.push('-');
        let magnitude: u64 = if v == i64::MIN {
            0x8000_0000_0000_0000u64
        } else {
            (-v) as u64
        };
        let ghost mid = out@;
        push_u64_text(out, magnitude);
        assert(out@ =~= old(out)@ + int_text(v as int));
    } else {
        push_u64_text(out, v as u64);
    }
}


// ---------------------------------------------------------------- literais

/// Compara os caracteres de `v` com um literal.
pub fn eq_lit(v: &[char], lit: &str) -> (b: bool)
    ensures
        b == (v@ == lit@),
{
    let n = lit.unicode_len();
    if v.len() != n {
        return false;
    }
    let mut i: usize = 0;
    while i < n
        invariant
            i <= n == lit@.len() == v@.len(),
            forall|k: int| 0 <= k < i ==> v@[k] == lit@[k],
        decreases n - i,
    {
        if v[i] != lit.get_char(i) {
            return false;
        }
        i += 1;
    }
    assert(v@ =~= lit@);
    true
}

/// Acrescenta a `out` os caracteres de um literal.
pub fn push_lit(out: &mut Vec<char>, lit: &str)
    ensures
        final(out)@ == old(out)@ + lit@,
{
    let n = lit.unicode_len();
    let mut i: usize = 0;
    while i < n
        invariant
            i <= n == lit@.len(),
            out@ == old(out)@ + lit@.take(i as int),
        decreases n - i,
    {
        out.push(lit.get_char(i));
        i += 1;
        assert(out@ =~= old(out)@ + lit@.take(i as int));
    }
    assert(lit@.take(n as int) =~= lit@);
}

/// Acrescenta a `out` os caracteres de `v`.
pub fn push_chars(out: &mut Vec<char>, v: &[char])
    ensures
        final(out)@ == old(out)@ + v@,
{
    let n = v.len();
    let mut i: usize = 0;
    while i < n
        invariant
            i <= n == v@.len(),
            out@ == old(out)@ + v@.take(i as int),
        decreases n - i,
    {
        out.push(v[i]);
        i += 1;
        assert(out@ =~= old(out)@ + v@.take(i as int));
    }
    assert(v@.take(n as int) =~= v@);
}


// ---------------------------------------------------------------- linhas

pub open spec fn strip_cr(s: Seq<char>) -> Seq<char> {
    if s.len() > 0 && s.last() == '\r' {
        s.drop_last()
    } else {
        s
    }
}

/// Linhas já fechadas por `\n` (sem o `\r` final) e a linha em aberto.
pub open spec fn lines_state(s: Seq<char>) -> (Seq<Seq<char>>, Seq<char>)
    decreases s.len(),
{
    if s.len() == 0 {
        (seq![], seq![])
    } else {
        let (done, cur) = lines_state(s.drop_last());
        if s.last() == '\n' {
            (done.push(strip_cr(cur)), seq![])
        } else {
            (done, cur.push(s.last()))
        }
    }
}

/// `str::lines`: corta em `\n`, tira o `\r` de um `\r\n`, e o terminador da
/// última linha é opcional.
pub open spec fn lines(s: Seq<char>) -> Seq<Seq<char>> {
    let (done, cur) = lines_state(s);
    if cur.len() > 0 {
        done.push(cur)
    } else {
        done
    }
}

pub fn lines_of(v: &[char]) -> (r: Vec<Vec<char>>)
    ensures
        r.deep_view() == lines(v@),
{
    let n = v.len();
    let mut done: Vec<Vec<char>> = Vec::new();
    let mut cur: Vec<char> = Vec::new();
    let mut i: usize = 0;
    while i < n
        invariant
            i <= n == v@.len(),
            (done.deep_view(), cur@) == lines_state(v@.take(i as int)),
        decreases n - i,
    {
        let c = v[i];
        assert(v@.take(i + 1).drop_last() =~= v@.take(i as int));
        if c == '\n' {
            let ghost before = done.deep_view();
            let ghost line = cur@;
            if cur.len() > 0 && cur[cur.len() - 1] == '\r' {
                cur.pop();
                assert(cur@ =~= line.drop_last());
            }
            proof { lemma_deep_view_chars(&cur); }
            done.push(cur);
            assert(done.deep_view() =~= before.push(strip_cr(line)));
            cur = Vec::new();
        } else {
            cur.push(c);
        }
        i += 1;
    }
    assert(v@.take(n as int) =~= v@);
    if cur.len() > 0 {
        let ghost before = done.deep_view();
        let ghost c = cur@;
        proof { lemma_deep_view_chars(&cur); }
        done.push(cur);
        assert(done.deep_view() =~= before.push(c));
    }
    done
}

/// `v` começa com o literal.
pub fn starts_with_lit(v: &[char], lit: &str) -> (b: bool)
    ensures
        b == (lit@.len() <= v@.len() && v@.take(lit@.len() as int) == lit@),
{
    let n = lit.unicode_len();
    if v.len() < n {
        return false;
    }
    let mut i: usize = 0;
    while i < n
        invariant
            i <= n == lit@.len() <= v@.len(),
            forall|k: int| 0 <= k < i ==> v@[k] == lit@[k],
        decreases n - i,
    {
        if v[i] != lit.get_char(i) {
            assert(v@.take(n as int)[i as int] != lit@[i as int]);
            return false;
        }
        i += 1;
    }
    assert(v@.take(n as int) =~= lit@);
    true
}

/// Primeiro índice a partir de `from` com o caractere `c`, ou o fim.
pub open spec fn find_char(s: Seq<char>, from: int, c: char) -> int
    decreases s.len() - from,
{
    if from >= s.len() || from < 0 {
        from
    } else if s[from] == c {
        from
    } else {
        find_char(s, from + 1, c)
    }
}

pub proof fn lemma_find_char(s: Seq<char>, from: int, c: char)
    requires
        0 <= from <= s.len(),
    ensures
        from <= find_char(s, from, c) <= s.len(),
        find_char(s, from, c) < s.len() ==> s[find_char(s, from, c)] == c,
        forall|k: int| from <= k < find_char(s, from, c) ==> s[k] != c,
    decreases s.len() - from,
{
    if from < s.len() && s[from] != c {
        lemma_find_char(s, from + 1, c);
    }
}

pub fn find_char_from(v: &[char], from: usize, c: char) -> (r: usize)
    requires
        from <= v@.len(),
    ensures
        r == find_char(v@, from as int, c),
{
    let mut i = from;
    while i < v.len() && v[i] != c
        invariant
            from <= i <= v@.len(),
            find_char(v@, from as int, c) == find_char(v@, i as int, c),
        decreases v@.len() - i,
    {
        i += 1;
    }
    i
}

/// Primeiro índice a partir de `from` que é `White_Space`, ou o fim.
pub open spec fn find_white(s: Seq<char>, from: int) -> int
    decreases s.len() - from,
{
    if from >= s.len() || from < 0 {
        from
    } else if is_white(s[from]) {
        from
    } else {
        find_white(s, from + 1)
    }
}

pub proof fn lemma_find_white(s: Seq<char>, from: int)
    requires
        0 <= from <= s.len(),
    ensures
        from <= find_white(s, from) <= s.len(),
    decreases s.len() - from,
{
    if from < s.len() && !is_white(s[from]) {
        lemma_find_white(s, from + 1);
    }
}

pub fn find_white_from(v: &[char], from: usize) -> (r: usize)
    requires
        from <= v@.len(),
    ensures
        r == find_white(v@, from as int),
{
    let mut i = from;
    while i < v.len() && !char_is_whitespace(v[i])
        invariant
            from <= i <= v@.len(),
            find_white(v@, from as int) == find_white(v@, i as int),
        decreases v@.len() - i,
    {
        i += 1;
    }
    i
}

/// Primeiro índice a partir de `from` que não é `White_Space` (pode passar do fim).
pub open spec fn skip_white(s: Seq<char>, from: int) -> int
    decreases s.len() - from,
{
    if from >= s.len() || from < 0 {
        from
    } else if is_white(s[from]) {
        skip_white(s, from + 1)
    } else {
        from
    }
}

pub proof fn lemma_skip_white(s: Seq<char>, from: int)
    requires
        0 <= from,
    ensures
        from <= skip_white(s, from),
        from <= s.len() ==> skip_white(s, from) <= s.len(),
        from > s.len() ==> skip_white(s, from) == from,
    decreases s.len() - from,
{
    if from < s.len() && is_white(s[from]) {
        lemma_skip_white(s, from + 1);
    }
}

pub fn skip_white_from(v: &[char], from: usize) -> (r: usize)
    ensures
        r == skip_white(v@, from as int),
{
    let mut i = from;
    while i < v.len() && char_is_whitespace(v[i])
        invariant
            from <= i,
            skip_white(v@, from as int) == skip_white(v@, i as int),
        decreases v@.len() - i,
    {
        i += 1;
    }
    i
}


pub fn join_space(parts: &Vec<Vec<char>>) -> (r: Vec<char>)
    ensures
        r@ == join(parts.deep_view(), seq![' ']),
{
    let mut sep: Vec<char> = Vec::new();
    sep.push(' ');
    assert(sep@ =~= seq![' ']);
    join_chars(parts, sep.as_slice())
}

/// Último índice de `c` em `s`.
pub open spec fn last_index_of(s: Seq<char>, c: char) -> Option<int>
    decreases s.len(),
{
    if s.len() == 0 {
        None
    } else if s.last() == c {
        Some(s.len() - 1)
    } else {
        last_index_of(s.drop_last(), c)
    }
}

pub proof fn lemma_last_index_of(s: Seq<char>, c: char)
    ensures
        last_index_of(s, c) matches Some(k) ==> 0 <= k < s.len() && s[k] == c,
    decreases s.len(),
{
    if s.len() > 0 && s.last() != c {
        lemma_last_index_of(s.drop_last(), c);
    }
}

pub fn last_index_of_exec(v: &[char], c: char) -> (r: Option<usize>)
    ensures
        match r {
            Some(k) => last_index_of(v@, c) == Some(k as int),
            None => last_index_of(v@, c) == None::<int>,
        },
{
    let mut i = v.len();
    assert(v@.take(i as int) =~= v@);
    while i > 0
        invariant
            i <= v@.len(),
            last_index_of(v@, c) == last_index_of(v@.take(i as int), c),
        decreases i,
    {
        if v[i - 1] == c {
            return Some(i - 1);
        }
        assert(v@.take(i as int).drop_last() =~= v@.take(i - 1));
        i -= 1;
    }
    None
}

/// `trim_end_matches(c)`.
pub open spec fn strip_trailing(s: Seq<char>, c: char) -> Seq<char>
    decreases s.len(),
{
    if s.len() > 0 && s.last() == c {
        strip_trailing(s.drop_last(), c)
    } else {
        s
    }
}

pub fn strip_trailing_exec(v: &[char], c: char) -> (r: Vec<char>)
    ensures
        r@ == strip_trailing(v@, c),
{
    let mut j = v.len();
    assert(v@.take(j as int) =~= v@);
    while j > 0 && v[j - 1] == c
        invariant
            j <= v@.len(),
            strip_trailing(v@, c) == strip_trailing(v@.take(j as int), c),
        decreases j,
    {
        assert(v@.take(j as int).drop_last() =~= v@.take(j - 1));
        j -= 1;
    }
    slice_chars(v, 0, j)
}

/// `trim_matches(|c| !c.is_alphanumeric())`: pontas não alfanuméricas saem.
pub open spec fn strip_lead_non_alnum(s: Seq<char>) -> Seq<char>
    decreases s.len(),
{
    if s.len() > 0 && !is_alnum(s[0]) {
        strip_lead_non_alnum(s.drop_first())
    } else {
        s
    }
}

pub open spec fn strip_trail_non_alnum(s: Seq<char>) -> Seq<char>
    decreases s.len(),
{
    if s.len() > 0 && !is_alnum(s.last()) {
        strip_trail_non_alnum(s.drop_last())
    } else {
        s
    }
}

pub open spec fn trim_non_alnum(s: Seq<char>) -> Seq<char> {
    strip_trail_non_alnum(strip_lead_non_alnum(s))
}

pub fn trim_non_alnum_exec(v: &[char]) -> (r: Vec<char>)
    ensures
        r@ == trim_non_alnum(v@),
{
    let n = v.len();
    let mut i: usize = 0;
    assert(v@.subrange(0, n as int) =~= v@);
    while i < n && !char_is_alphanumeric(v[i])
        invariant
            i <= n == v@.len(),
            strip_lead_non_alnum(v@) == strip_lead_non_alnum(v@.subrange(i as int, n as int)),
        decreases n - i,
    {
        assert(v@.subrange(i as int, n as int).drop_first() =~= v@.subrange(i + 1, n as int));
        i += 1;
    }
    let ghost t = v@.subrange(i as int, n as int);
    proof {
        if i < n {
            assert(is_alnum(t[0]));
        }
        assert(strip_lead_non_alnum(v@) == t);
    }
    let mut j = n;
    while j > i && !char_is_alphanumeric(v[j - 1])
        invariant
            i <= j <= n == v@.len(),
            t == v@.subrange(i as int, n as int),
            strip_trail_non_alnum(t) == strip_trail_non_alnum(v@.subrange(i as int, j as int)),
        decreases j - i,
    {
        assert(v@.subrange(i as int, j as int).drop_last() =~= v@.subrange(i as int, j - 1));
        j -= 1;
    }
    slice_chars(v, i, j)
}

/// Alguma ocorrência de `pat` em `s`.
pub open spec fn contains_seq(s: Seq<char>, pat: Seq<char>) -> bool {
    exists|i: int| 0 <= i && i + pat.len() <= s.len() && #[trigger] s.subrange(i, i + pat.len()) == pat
}

pub fn contains_lit(v: &[char], lit: &str) -> (b: bool)
    ensures
        b == contains_seq(v@, lit@),
{
    let m = lit.unicode_len();
    let n = v.len();
    if m > n {
        assert forall|i: int| 0 <= i && i + lit@.len() <= v@.len() implies
            #[trigger] v@.subrange(i, i + lit@.len()) != lit@ by {}
        return false;
    }
    let mut i: usize = 0;
    while i <= n - m
        invariant
            m == lit@.len() <= n == v@.len(),
            i <= n - m + 1,
            forall|k: int| 0 <= k < i ==> #[trigger] v@.subrange(k, k + m) != lit@,
        decreases n - i,
    {
        let mut j: usize = 0;
        let mut same = true;
        while j < m
            invariant
                j <= m == lit@.len(),
                i + m <= n == v@.len(),
                same == (forall|k: int| 0 <= k < j ==> v@[i + k] == lit@[k]),
            decreases m - j,
        {
            if v[i + j] != lit.get_char(j) {
                same = false;
            }
            j += 1;
        }
        if same {
            assert(v@.subrange(i as int, i + m) =~= lit@);
            return true;
        }
        assert(v@.subrange(i as int, i + m) != lit@) by {
            let k = choose|k: int| 0 <= k < m && v@[i + k] != lit@[k];
            assert(v@.subrange(i as int, i + m)[k] == v@[i + k]);
        }
        i += 1;
    }
    assert forall|k: int| 0 <= k && k + lit@.len() <= v@.len() implies
        #[trigger] v@.subrange(k, k + lit@.len()) != lit@ by {
        assert(k < i);
    }
    false
}

} // verus!
