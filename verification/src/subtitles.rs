//! Conversão de legenda SRT para WebVTT.
//!
//! O `<track>` do HTML só aceita WebVTT, e legenda baixada por aí é quase
//! sempre `.srt`. A diferença entre os dois formatos é pequena — cabeçalho,
//! vírgula do milissegundo e escape de `&`, `<`, `>` — mas é o suficiente para
//! o navegador recusar o arquivo inteiro em silêncio.

use vstd::prelude::*;
use vstd::utf8::{decode_utf8, valid_utf8};

use crate::text::{
    all_digits, ascii_digit, chars_of, is_digit, last_index_of, last_index_of_exec,
    lemma_last_index_of, lines, lines_of, push_chars, push_lit, slice_chars, string_of,
    strip_trailing, strip_trailing_exec, trim, trim_chars, words, words_of,
};

verus! {

// ---------------------------------------------------------------- carimbos

/// `s.split(c)`: pedaços entre as ocorrências de `c`, vazios inclusive.
pub open spec fn split_state(s: Seq<char>, c: char) -> (Seq<Seq<char>>, Seq<char>)
    decreases s.len(),
{
    if s.len() == 0 {
        (seq![], seq![])
    } else {
        let (done, cur) = split_state(s.drop_last(), c);
        if s.last() == c {
            (done.push(cur), seq![])
        } else {
            (done, cur.push(s.last()))
        }
    }
}

pub open spec fn split_on(s: Seq<char>, c: char) -> Seq<Seq<char>> {
    let (done, cur) = split_state(s, c);
    done.push(cur)
}

/// Ponto de corte entre relógio e milissegundos: a última vírgula, ou, sem
/// vírgula, o último ponto.
pub open spec fn stamp_cut(stamp: Seq<char>) -> Option<int> {
    match last_index_of(stamp, ',') {
        Some(k) => Some(k),
        None => last_index_of(stamp, '.'),
    }
}

/// "00:00:01,000" ou "00:01,000" → com ponto no lugar da vírgula; três dígitos
/// de milissegundo e duas ou três partes numéricas não vazias no relógio.
pub open spec fn normalize_stamp_spec(stamp: Seq<char>) -> Option<Seq<char>> {
    match stamp_cut(stamp) {
        Some(k) => {
            let clock = stamp.take(k);
            let millis = stamp.skip(k + 1);
            let parts = split_on(clock, ':');
            if millis.len() == 3 && all_digits(millis) && 2 <= parts.len() <= 3 && (forall|i: int|
                0 <= i < parts.len() ==> #[trigger] parts[i].len() > 0 && all_digits(parts[i])) {
                Some(clock + seq!['.'] + millis)
            } else {
                None
            }
        },
        None => None,
    }
}

pub open spec fn arrow() -> Seq<char> {
    seq!['-', '-', '>']
}

/// Primeira ocorrência de `-->` a partir de `from`.
pub open spec fn find_arrow(s: Seq<char>, from: int) -> Option<int>
    decreases s.len() - from,
{
    if from < 0 || from + 3 > s.len() {
        None
    } else if s.subrange(from, from + 3) == arrow() {
        Some(from)
    } else {
        find_arrow(s, from + 1)
    }
}

/// "00:00:01,000 --> 00:00:04,000 X1:..." → "00:00:01.000 --> 00:00:04.000";
/// o posicionamento depois do fim cai fora.
pub open spec fn convert_timing_spec(line: Seq<char>) -> Option<Seq<char>> {
    match find_arrow(line, 0) {
        Some(k) => {
            let rest = line.skip(k + 3);
            match normalize_stamp_spec(trim(line.take(k))) {
                Some(start) => if words(rest).len() > 0 {
                    match normalize_stamp_spec(words(rest)[0]) {
                        Some(end) => Some(start + seq![' ', '-', '-', '>', ' '] + end),
                        None => None,
                    }
                } else {
                    None
                },
                None => None,
            }
        },
        None => None,
    }
}

pub open spec fn is_index_spec(line: Seq<char>) -> bool {
    line.len() > 0 && all_digits(line)
}

pub open spec fn escape_char(c: char) -> Seq<char> {
    if c == '&' {
        seq!['&', 'a', 'm', 'p', ';']
    } else if c == '<' {
        seq!['&', 'l', 't', ';']
    } else if c == '>' {
        seq!['&', 'g', 't', ';']
    } else {
        seq![c]
    }
}

/// `&`, `<` e `>` viram entidades; o resto passa igual.
pub open spec fn escape_spec(line: Seq<char>) -> Seq<char>
    decreases line.len(),
{
    if line.len() == 0 {
        seq![]
    } else {
        escape_spec(line.drop_last()) + escape_char(line.last())
    }
}

/// O que uma linha do SRT vira no WebVTT: nada (índice numérico), o carimbo
/// convertido, ou o texto escapado — sempre seguido de `\n`.
pub open spec fn vtt_line(line: Seq<char>) -> Seq<char> {
    let l = strip_trailing(line, '\r');
    if is_index_spec(l) {
        seq![]
    } else {
        let text = match convert_timing_spec(l) {
            Some(c) => c,
            None => escape_spec(l),
        };
        text + seq!['\n']
    }
}

pub open spec fn vtt_body(ls: Seq<Seq<char>>) -> Seq<char>
    decreases ls.len(),
{
    if ls.len() == 0 {
        seq![]
    } else {
        vtt_body(ls.drop_last()) + vtt_line(ls.last())
    }
}

pub open spec fn vtt_header() -> Seq<char> {
    seq!['W', 'E', 'B', 'V', 'T', 'T', '\n', '\n']
}

pub open spec fn srt_to_vtt_spec(input: Seq<char>) -> Seq<char> {
    vtt_header() + vtt_body(lines(input))
}

fn all_digits_exec(v: &[char], from: usize, to: usize) -> (b: bool)
    requires
        from <= to <= v@.len(),
    ensures
        b == all_digits(v@.subrange(from as int, to as int)),
{
    let mut i = from;
    while i < to
        invariant
            from <= i <= to <= v@.len(),
            forall|k: int| from <= k < i ==> is_digit(#[trigger] v@[k]),
        decreases to - i,
    {
        if !ascii_digit(v[i]) {
            assert(!is_digit(v@.subrange(from as int, to as int)[i - from]));
            return false;
        }
        i += 1;
    }
    assert forall|k: int| 0 <= k < to - from implies is_digit(
        #[trigger] v@.subrange(from as int, to as int)[k],
    ) by {
        assert(v@.subrange(from as int, to as int)[k] == v@[from + k]);
    }
    true
}

/// As partes de `clock` separadas por `:` são duas ou três, não vazias e só
/// de dígitos.
fn clock_ok(clock: &[char]) -> (b: bool)
    ensures
        b == (2 <= split_on(clock@, ':').len() <= 3 && (forall|i: int|
            0 <= i < split_on(clock@, ':').len() ==> #[trigger] split_on(clock@, ':')[i].len() > 0
                && all_digits(split_on(clock@, ':')[i]))),
{
    let n = clock.len();
    let mut parts: Vec<Vec<char>> = Vec::new();
    let mut cur: Vec<char> = Vec::new();
    let mut i: usize = 0;
    while i < n
        invariant
            i <= n == clock@.len(),
            (parts.deep_view(), cur@) == split_state(clock@.take(i as int), ':'),
        decreases n - i,
    {
        assert(clock@.take(i + 1).drop_last() =~= clock@.take(i as int));
        if clock[i] == ':' {
            let ghost before = parts.deep_view();
            proof { crate::text::lemma_deep_view_chars(&cur); }
            parts.push(cur);
            assert(parts.deep_view() =~= before.push(split_state(clock@.take(i as int), ':').1));
            cur = Vec::new();
        } else {
            cur.push(clock[i]);
        }
        i += 1;
    }
    assert(clock@.take(n as int) =~= clock@);
    let ghost before = parts.deep_view();
    let ghost last = cur@;
    proof { crate::text::lemma_deep_view_chars(&cur); }
    parts.push(cur);
    assert(parts.deep_view() =~= before.push(last));
    let ghost ps = parts.deep_view();
    assert(ps == split_on(clock@, ':'));
    if parts.len() < 2 || parts.len() > 3 {
        return false;
    }
    let mut k: usize = 0;
    while k < parts.len()
        invariant
            k <= parts@.len(),
            ps == parts.deep_view(),
            ps == split_on(clock@, ':'),
            2 <= ps.len() <= 3,
            forall|j: int| 0 <= j < k ==> #[trigger] ps[j].len() > 0 && all_digits(ps[j]),
        decreases parts@.len() - k,
    {
        assert(ps[k as int] == parts@[k as int]@);
        let part = parts[k].as_slice();
        assert(part@.subrange(0, part@.len() as int) =~= part@);
        if part.len() == 0 || !all_digits_exec(part, 0, part.len()) {
            assert(!(ps[k as int].len() > 0 && all_digits(ps[k as int])));
            return false;
        }
        k += 1;
    }
    true
}

fn normalize_stamp(stamp: &[char]) -> (r: Option<Vec<char>>)
    ensures
        match r {
            Some(v) => normalize_stamp_spec(stamp@) == Some(v@),
            None => normalize_stamp_spec(stamp@) == None::<Seq<char>>,
        },
{
    let n = stamp.len();
    let cut = match last_index_of_exec(stamp, ',') {
        Some(k) => k,
        None => match last_index_of_exec(stamp, '.') {
            Some(k) => k,
            None => return None,
        },
    };
    proof {
        lemma_last_index_of(stamp@, ',');
        lemma_last_index_of(stamp@, '.');
    }
    assert(cut < n);
    let clock = slice_chars(stamp, 0, cut);
    let millis = slice_chars(stamp, cut + 1, n);
    assert(clock@ =~= stamp@.take(cut as int));
    assert(millis@ =~= stamp@.skip(cut + 1));
    assert(millis@.subrange(0, millis@.len() as int) =~= millis@);
    if millis.len() != 3 || !all_digits_exec(millis.as_slice(), 0, millis.len()) {
        return None;
    }
    if !clock_ok(clock.as_slice()) {
        return None;
    }
    let mut out = clock;
    out.push('.');
    push_chars(&mut out, millis.as_slice());
    Some(out)
}

fn find_arrow_exec(s: &[char]) -> (r: Option<usize>)
    ensures
        match r {
            Some(k) => find_arrow(s@, 0) == Some(k as int),
            None => find_arrow(s@, 0) == None::<int>,
        },
{
    let n = s.len();
    if n < 3 {
        return None;
    }
    let mut i: usize = 0;
    while i <= n - 3
        invariant
            3 <= n == s@.len(),
            i <= n - 2,
            find_arrow(s@, 0) == find_arrow(s@, i as int),
        decreases n - i,
    {
        if s[i] == '-' && s[i + 1] == '-' && s[i + 2] == '>' {
            assert(s@.subrange(i as int, i + 3) =~= arrow());
            return Some(i);
        }
        assert(s@.subrange(i as int, i + 3)[0] == s@[i as int]);
        assert(s@.subrange(i as int, i + 3)[1] == s@[i + 1]);
        assert(s@.subrange(i as int, i + 3)[2] == s@[i + 2]);
        i += 1;
    }
    None
}

fn convert_timing(line: &[char]) -> (r: Option<Vec<char>>)
    ensures
        match r {
            Some(v) => convert_timing_spec(line@) == Some(v@),
            None => convert_timing_spec(line@) == None::<Seq<char>>,
        },
{
    let k = match find_arrow_exec(line) {
        Some(k) => k,
        None => return None,
    };
    proof {
        assert(find_arrow(line@, 0) == Some(k as int));
        lemma_find_arrow(line@, 0);
    }
    let n = line.len();
    let head = slice_chars(line, 0, k);
    assert(head@ =~= line@.take(k as int));
    let rest = slice_chars(line, k + 3, n);
    assert(rest@ =~= line@.skip(k + 3));
    let start_raw = trim_chars(head.as_slice());
    let start = match normalize_stamp(start_raw.as_slice()) {
        Some(s) => s,
        None => return None,
    };
    let tokens = words_of(rest.as_slice());
    if tokens.len() == 0 {
        return None;
    }
    assert(tokens.deep_view()[0] == tokens@[0]@);
    let end = match normalize_stamp(tokens[0].as_slice()) {
        Some(e) => e,
        None => return None,
    };
    let mut out = start;
    push_lit(&mut out, " --> ");
    proof { reveal_strlit(" --> "); }
    push_chars(&mut out, end.as_slice());
    Some(out)
}

pub proof fn lemma_find_arrow(s: Seq<char>, from: int)
    requires
        0 <= from,
    ensures
        find_arrow(s, from) matches Some(k) ==> from <= k && k + 3 <= s.len(),
    decreases s.len() - from,
{
    if from + 3 <= s.len() && s.subrange(from, from + 3) != arrow() {
        lemma_find_arrow(s, from + 1);
    }
}

fn is_index(line: &[char]) -> (b: bool)
    ensures
        b == is_index_spec(line@),
{
    assert(line@.subrange(0, line@.len() as int) =~= line@);
    line.len() > 0 && all_digits_exec(line, 0, line.len())
}

/// WebVTT trata `&`, `<` e `>` como marcação; sem escapar, uma fala com "<"
/// engole o resto da legenda.
fn escape(line: &[char], out: &mut Vec<char>)
    ensures
        final(out)@ == old(out)@ + escape_spec(line@),
{
    let n = line.len();
    let mut i: usize = 0;
    while i < n
        invariant
            i <= n == line@.len(),
            out@ == old(out)@ + escape_spec(line@.take(i as int)),
        decreases n - i,
    {
        let c = line[i];
        assert(line@.take(i + 1).drop_last() =~= line@.take(i as int));
        let ghost before = out@;
        if c == '&' {
            out.push('&');
            out.push('a');
            out.push('m');
            out.push('p');
            out.push(';');
        } else if c == '<' {
            out.push('&');
            out.push('l');
            out.push('t');
            out.push(';');
        } else if c == '>' {
            out.push('&');
            out.push('g');
            out.push('t');
            out.push(';');
        } else {
            out.push(c);
        }
        assert(out@ =~= before + escape_char(c));
        i += 1;
    }
    assert(line@.take(n as int) =~= line@);
}

/// Converte SRT em WebVTT. Nunca falha: uma legenda torta rende uma legenda
/// incompleta, o que é melhor do que nenhuma no meio de um filme.
pub fn srt_to_vtt(input: &str) -> (r: String)
    ensures
        r@ == srt_to_vtt_spec(input@),
{
    let chars = chars_of(input);
    let all = lines_of(chars.as_slice());
    let ghost ls = all.deep_view();
    let mut out: Vec<char> = Vec::new();
    out.push('W');
    out.push('E');
    out.push('B');
    out.push('V');
    out.push('T');
    out.push('T');
    out.push('\n');
    out.push('\n');
    assert(out@ =~= vtt_header());
    let mut i: usize = 0;
    while i < all.len()
        invariant
            i <= all@.len(),
            ls == all.deep_view(),
            out@ == vtt_header() + vtt_body(ls.take(i as int)),
        decreases all@.len() - i,
    {
        assert(ls.take(i + 1).drop_last() =~= ls.take(i as int));
        assert(ls[i as int] == all@[i as int]@);
        let ghost before = out@;
        let line = strip_trailing_exec(all[i].as_slice(), '\r');
        // O índice numérico do SRT não existe em WebVTT.
        if !is_index(line.as_slice()) {
            match convert_timing(line.as_slice()) {
                Some(converted) => push_chars(&mut out, converted.as_slice()),
                None => escape(line.as_slice(), &mut out),
            }
            out.push('\n');
        }
        assert(out@ =~= before + vtt_line(ls[i as int]));
        i += 1;
    }
    assert(ls.take(all@.len() as int) =~= ls);
    string_of(out.as_slice())
}

// ---------------------------------------------------------------- decode

pub open spec fn bom() -> Seq<u8> {
    seq![0xEFu8, 0xBBu8, 0xBFu8]
}

/// Bytes sem a marca de ordem UTF-8 do começo, quando ela está lá.
pub open spec fn strip_bom(bytes: Seq<u8>) -> Seq<u8> {
    if bytes.len() >= 3 && bytes.take(3) == bom() {
        bytes.skip(3)
    } else {
        bytes
    }
}

/// ISO-8859-1: cada byte é o code point de mesmo número.
pub open spec fn latin1(bytes: Seq<u8>) -> Seq<char> {
    Seq::new(bytes.len(), |i: int| bytes[i] as char)
}

/// UTF-8 quando os bytes são UTF-8 válido; senão, Latin-1.
pub open spec fn decode_spec(bytes: Seq<u8>) -> Seq<char> {
    let b = strip_bom(bytes);
    if valid_utf8(b) {
        decode_utf8(b)
    } else {
        latin1(b)
    }
}

/// `std::str::from_utf8`: o texto quando os bytes são UTF-8 válido, erro
/// (aqui `None`) quando não são.
#[verifier::external_body]
fn utf8_text(bytes: &[u8]) -> (r: Option<String>)
    ensures
        r is Some <==> valid_utf8(bytes@),
        r matches Some(t) ==> t@ == decode_utf8(bytes@),
{
    match std::str::from_utf8(bytes) {
        Ok(text) => Some(text.to_owned()),
        Err(_) => None,
    }
}

/// Decodifica o arquivo de legenda em texto.
///
/// Legenda em português baixada por aí vem em UTF-8 ou em Latin-1, e as duas
/// convivem. Tenta UTF-8 primeiro, porque um texto Latin-1 com acento quase
/// nunca é UTF-8 válido.
pub fn decode(bytes: &[u8]) -> (r: String)
    ensures
        r@ == decode_spec(bytes@),
{
    let n = bytes.len();
    let start: usize = if n >= 3 && bytes[0] == 0xEF && bytes[1] == 0xBB && bytes[2] == 0xBF {
        assert(bytes@.take(3) =~= bom());
        3
    } else {
        proof {
            if n >= 3 && bytes@.take(3) == bom() {
                assert(bytes@.take(3)[0] == bytes@[0]);
                assert(bytes@.take(3)[1] == bytes@[1]);
                assert(bytes@.take(3)[2] == bytes@[2]);
            }
        }
        0
    };
    let mut body: Vec<u8> = Vec::new();
    let mut i = start;
    while i < n
        invariant
            start <= i <= n == bytes@.len(),
            body@ == bytes@.subrange(start as int, i as int),
        decreases n - i,
    {
        body.push(bytes[i]);
        i += 1;
        assert(body@ =~= bytes@.subrange(start as int, i as int));
    }
    assert(body@ =~= strip_bom(bytes@));
    match utf8_text(body.as_slice()) {
        Some(text) => text,
        None => {
            let mut out: Vec<char> = Vec::new();
            let mut k: usize = 0;
            while k < body.len()
                invariant
                    k <= body@.len(),
                    out@ == latin1(body@.take(k as int)),
                decreases body@.len() - k,
            {
                out.push(body[k] as char);
                k += 1;
                assert(out@ =~= latin1(body@.take(k as int)));
            }
            assert(body@.take(body@.len() as int) =~= body@);
            string_of(out.as_slice())
        },
    }
}


pub open spec fn ascii_lower(c: char) -> char {
    if 'A' <= c <= 'Z' {
        ((c as u8) + 32) as char
    } else {
        c
    }
}

/// `eq_ignore_ascii_case`: mesmo tamanho, letras ASCII sem distinção de caixa.
pub open spec fn eq_ignore_ascii_case(a: Seq<char>, b: Seq<char>) -> bool {
    a.len() == b.len() && forall|i: int| 0 <= i < a.len() ==> #[trigger] ascii_lower(a[i]) == ascii_lower(b[i])
}

fn ascii_lower_exec(c: char) -> (r: char)
    ensures
        r == ascii_lower(c),
{
    if 'A' <= c && c <= 'Z' {
        ((c as u8) + 32) as char
    } else {
        c
    }
}

/// Texto pronto para um `<track>`: um arquivo `.vtt` (extensão em qualquer
/// caixa) passa como está, o resto é convertido de SRT.
pub open spec fn track_text_spec(text: Seq<char>, extension: Option<Seq<char>>) -> Seq<char> {
    if extension matches Some(e) && eq_ignore_ascii_case(e, "vtt"@) {
        text
    } else {
        srt_to_vtt_spec(text)
    }
}

pub fn track_text(text: String, extension: Option<&str>) -> (r: String)
    ensures
        r@ == track_text_spec(text@, match extension { Some(e) => Some(e@), None => None }),
{
    let already_vtt = match extension {
        Some(e) => {
            let ev = chars_of(e);
            let vtt = chars_of("vtt");
            if ev.len() != vtt.len() {
                false
            } else {
                let mut i: usize = 0;
                let mut same = true;
                while i < ev.len()
                    invariant
                        i <= ev@.len() == vtt@.len(),
                        same == (forall|k: int| 0 <= k < i ==> #[trigger] ascii_lower(ev@[k]) == ascii_lower(vtt@[k])),
                    decreases ev@.len() - i,
                {
                    if ascii_lower_exec(ev[i]) != ascii_lower_exec(vtt[i]) {
                        same = false;
                    }
                    i += 1;
                }
                same
            }
        },
        None => false,
    };
    if already_vtt {
        text
    } else {
        srt_to_vtt(text.as_str())
    }
}

// ---------------------------------------------------------------- leis

/// Toda saída começa com o cabeçalho `WEBVTT` e uma linha em branco.
pub proof fn law_vtt_header(input: Seq<char>)
    ensures
        srt_to_vtt_spec(input).len() >= 8,
        srt_to_vtt_spec(input).take(8) == vtt_header(),
{
    assert(srt_to_vtt_spec(input).take(8) =~= vtt_header());
}

/// Cada linha vira texto por conta própria: uma linha torta não muda o que as
/// outras produzem; converter dois trechos de linhas é converter cada um e
/// juntar.
pub proof fn law_lines_convert_independently(a: Seq<Seq<char>>, b: Seq<Seq<char>>)
    ensures
        vtt_body(a + b) == vtt_body(a) + vtt_body(b),
    decreases b.len(),
{
    if b.len() == 0 {
        assert(a + b =~= a);
        assert(vtt_body(a) + vtt_body(b) =~= vtt_body(a));
    } else {
        law_lines_convert_independently(a, b.drop_last());
        assert((a + b).drop_last() =~= a + b.drop_last());
        assert((a + b).last() == b.last());
        assert(vtt_body(a + b) =~= vtt_body(a) + vtt_body(b));
    }
}

/// Só some da saída a linha de índice: uma linha que, sem os `\r` do fim, não é
/// vazia e só tem dígitos. Toda outra linha — a linha em branco entre deixas
/// inclusive — sai como uma linha da saída, terminada em `\n`.
pub proof fn law_only_index_lines_vanish(line: Seq<char>)
    ensures
        ({
            let l = strip_trailing(line, '\r');
            vtt_line(line).len() == 0 <==> (l.len() > 0 && forall|i: int| 0 <= i < l.len() ==> '0' <= #[trigger] l[i] <= '9')
        }),
        vtt_line(line).len() > 0 ==> vtt_line(line).last() == '\n',
{
}

/// Linha em branco do SRT sobrevive à conversão: entre o que as linhas de antes
/// e as de depois produzem fica uma linha vazia, então duas deixas separadas
/// por linha em branco saem separadas por uma linha em branco.
pub proof fn law_blank_line_survives(before: Seq<Seq<char>>, after: Seq<Seq<char>>)
    ensures
        vtt_body(before + seq![Seq::<char>::empty()] + after) == vtt_body(before) + seq!['\n'] + vtt_body(after),
{
    law_lines_convert_independently(before + seq![Seq::<char>::empty()], after);
    law_lines_convert_independently(before, seq![Seq::<char>::empty()]);
    let e = Seq::<char>::empty();
    assert(strip_trailing(e, '\r') == e);
    assert(find_arrow(e, 0) is None);
    assert(escape_spec(e) == e);
    assert(vtt_line(e) =~= seq!['\n']);
    assert(seq![e].drop_last() =~= Seq::<Seq<char>>::empty());
    assert(seq![e].last() == e);
    assert(vtt_body(Seq::<Seq<char>>::empty()) == Seq::<char>::empty());
    assert(vtt_body(seq![e]) == vtt_body(seq![e].drop_last()) + vtt_line(seq![e].last()));
    assert(vtt_body(seq![e]) =~= seq!['\n']);
}

/// Texto escapado não tem `<` nem `>`: nenhuma fala vira marcação.
pub proof fn law_escape_no_markup(line: Seq<char>)
    ensures
        forall|i: int| 0 <= i < escape_spec(line).len() ==> #[trigger] escape_spec(line)[i] != '<'
            && escape_spec(line)[i] != '>',
    decreases line.len(),
{
    if line.len() > 0 {
        law_escape_no_markup(line.drop_last());
        let prev = escape_spec(line.drop_last());
        let tail = escape_char(line.last());
        assert(escape_spec(line) == prev + tail);
        assert forall|i: int| 0 <= i < escape_spec(line).len() implies #[trigger] escape_spec(line)[i] != '<'
            && escape_spec(line)[i] != '>' by {
            if i < prev.len() {
                assert(escape_spec(line)[i] == prev[i]);
            } else {
                assert(escape_spec(line)[i] == tail[i - prev.len()]);
            }
        }
    }
}

/// A marca de ordem UTF-8 no começo não entra no texto: bytes com ela
/// decodificam como os bytes sem ela.
pub proof fn law_bom_is_ignored(bytes: Seq<u8>)
    ensures
        decode_spec(bom() + bytes) == (if valid_utf8(bytes) { decode_utf8(bytes) } else { latin1(bytes) }),
{
    assert((bom() + bytes).take(3) =~= bom());
    assert((bom() + bytes).skip(3) =~= bytes);
}


/// Texto em UTF-8 volta inteiro, desde que não comece com U+FEFF (que é a
/// própria marca de ordem).
pub proof fn law_utf8_roundtrip(text: Seq<char>)
    requires
        text.len() == 0 || text[0] != '\u{feff}',
    ensures
        decode_spec(vstd::utf8::encode_utf8(text)) == text,
{
    let bytes = vstd::utf8::encode_utf8(text);
    vstd::utf8::encode_utf8_valid_utf8(text);
    vstd::utf8::encode_utf8_decode_utf8(text);
    if bytes.len() >= 3 && bytes.take(3) == bom() {
        assert(text.len() > 0);
        vstd::utf8::encode_utf8_first_scalar(text);
        assert(bytes[0] == 0xEFu8 && bytes[1] == 0xBBu8 && bytes[2] == 0xBFu8) by {
            assert(bytes.take(3)[0] == bytes[0]);
            assert(bytes.take(3)[1] == bytes[1]);
            assert(bytes.take(3)[2] == bytes[2]);
        }
        assert(vstd::utf8::codepoint_width_3(0xEFu8, 0xBBu8, 0xBFu8) == 0xFEFFu32) by (bit_vector);
        assert(vstd::utf8::decode_first_codepoint(bytes) == 0xFEFFu32);
        assert(text[0] as u32 == 0xFEFFu32);
        assert(false);
    }
}

} // verus!
