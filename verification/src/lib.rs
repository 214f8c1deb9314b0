//! Catálogo local de listas IPTV: parser M3U, identificadores estáveis,
//! conversão de legendas e as regras que cercam o banco do catálogo.

pub mod catalog;
pub mod db;
pub mod ids;
pub mod import;
pub mod library;
pub mod m3u;
pub mod meta;
pub mod proxy;
pub mod settings;
pub mod subtitles;
pub mod text;

use vstd::prelude::*;

use crate::text::{nat_text, push_lit, push_u64_text, string_of};

verus! {

/// Bytes que passam sem escape numa query string.
pub open spec fn is_unreserved(b: u8) -> bool {
    ||| (0x41 <= b <= 0x5A)
    ||| (0x61 <= b <= 0x7A)
    ||| (0x30 <= b <= 0x39)
    ||| b == 0x2D ||| b == 0x5F ||| b == 0x2E ||| b == 0x7E
}

pub open spec fn hex_upper(n: u8) -> char
    recommends
        n < 16,
{
    if n < 10 {
        (n + 0x30) as char
    } else {
        (n - 10 + 0x41) as char
    }
}

pub open spec fn encode_byte(b: u8) -> Seq<char> {
    if is_unreserved(b) {
        seq![b as char]
    } else {
        seq!['%', hex_upper(b / 16), hex_upper(b % 16)]
    }
}

pub open spec fn encode_bytes(bytes: Seq<u8>) -> Seq<char>
    decreases bytes.len(),
{
    if bytes.len() == 0 {
        seq![]
    } else {
        encode_bytes(bytes.drop_last()) + encode_byte(bytes.last())
    }
}

/// Percent-encoding dos bytes UTF-8: letras, dígitos e `-_.~` passam; o resto
/// vira `%XX` em hexadecimal maiúsculo.
pub open spec fn urlencoding_spec(value: Seq<char>) -> Seq<char> {
    encode_bytes(vstd::utf8::encode_utf8(value))
}

fn hex_upper_exec(n: u8) -> (c: char)
    requires
        n < 16,
    ensures
        c == hex_upper(n),
{
    if n < 10 {
        (n + 0x30) as char
    } else {
        (n - 10 + 0x41) as char
    }
}

pub fn urlencoding(value: &str) -> (r: String)
    ensures
        r@ == urlencoding_spec(value@),
{
    let bytes = value.as_bytes();
    let n = bytes.len();
    let mut out: Vec<char> = Vec::new();
    let mut i: usize = 0;
    while i < n
        invariant
            i <= n == bytes@.len(),
            bytes@ == vstd::utf8::encode_utf8(value@),
            out@ == encode_bytes(bytes@.take(i as int)),
        decreases n - i,
    {
        let b = bytes[i];
        assert(bytes@.take(i + 1).drop_last() =~= bytes@.take(i as int));
        let ghost before = out@;
        if (0x41 <= b && b <= 0x5A) || (0x61 <= b && b <= 0x7A) || (0x30 <= b && b <= 0x39)
            || b == 0x2D || b == 0x5F || b == 0x2E || b == 0x7E {
            out.push(b as char);
        } else {
            out.push('%');
            out.push(hex_upper_exec(b / 16));
            out.push(hex_upper_exec(b % 16));
        }
        assert(out@ =~= before + encode_byte(b));
        i += 1;
    }
    assert(bytes@.take(n as int) =~= bytes@);
    string_of(out.as_slice())
}

/// Toda reprodução passa pelo proxy local: é o que permite tocar HTTP puro
/// dentro da WebView.
pub open spec fn stream_url_spec(port: u16, url: Seq<char>) -> Seq<char> {
    "http://127.0.0.1:"@ + nat_text(port as nat) + "/stream?url="@ + urlencoding_spec(url)
}

pub fn stream_url(port: u16, url: &str) -> (r: String)
    ensures
        r@ == stream_url_spec(port, url@),
{
    let mut out: Vec<char> = Vec::new();
    push_lit(&mut out, "http://127.0.0.1:");
    push_u64_text(&mut out, port as u64);
    push_lit(&mut out, "/stream?url=");
    let encoded = urlencoding(url);
    let encoded_chars = crate::text::chars_of(encoded.as_str());
    crate::text::push_chars(&mut out, encoded_chars.as_slice());
    string_of(out.as_slice())
}


pub open spec fn is_url_safe(c: char) -> bool {
    ||| ('A' <= c <= 'Z') ||| ('a' <= c <= 'z') ||| ('0' <= c <= '9')
    ||| c == '-' ||| c == '_' ||| c == '.' ||| c == '~' ||| c == '%'
}

/// A URL codificada só tem letras, dígitos, `-_.~` e `%`: nada nela encerra o
/// parâmetro `url` nem abre outro.
pub proof fn law_urlencoding_is_safe(bytes: Seq<u8>)
    ensures
        forall|i: int| 0 <= i < encode_bytes(bytes).len() ==> is_url_safe(#[trigger] encode_bytes(bytes)[i]),
    decreases bytes.len(),
{
    if bytes.len() > 0 {
        law_urlencoding_is_safe(bytes.drop_last());
        let prev = encode_bytes(bytes.drop_last());
        let b = bytes.last();
        let tail = encode_byte(b);
        assert(encode_bytes(bytes) == prev + tail);
        assert forall|k: int| 0 <= k < tail.len() implies is_url_safe(#[trigger] tail[k]) by {
            if !is_unreserved(b) {
                assert(b / 16 < 16);
                assert(b % 16 < 16);
            }
        }
        assert forall|i: int| 0 <= i < encode_bytes(bytes).len() implies is_url_safe(#[trigger] encode_bytes(bytes)[i]) by {
            if i < prev.len() {
                assert(encode_bytes(bytes)[i] == prev[i]);
            } else {
                assert(encode_bytes(bytes)[i] == tail[i - prev.len()]);
            }
        }
    }
}

/// Valor de um dígito hexadecimal (maiúsculo ou minúsculo).
pub open spec fn hex_digit_value(c: char) -> int {
    if '0' <= c <= '9' {
        c as int - 0x30
    } else if 'A' <= c <= 'F' {
        c as int - 0x41 + 10
    } else if 'a' <= c <= 'f' {
        c as int - 0x61 + 10
    } else {
        0
    }
}

/// Decodificação de uma query string: `%XX` vira o byte `XX`, qualquer outro
/// caractere vira o próprio código.
pub open spec fn percent_decode(s: Seq<char>) -> Seq<u8>
    decreases s.len(),
{
    if s.len() == 0 {
        seq![]
    } else if s[0] == '%' && s.len() >= 3 {
        seq![(16 * hex_digit_value(s[1]) + hex_digit_value(s[2])) as u8] + percent_decode(s.skip(3))
    } else {
        seq![s[0] as u8] + percent_decode(s.skip(1))
    }
}

proof fn lemma_encode_bytes_append(a: Seq<u8>, b: Seq<u8>)
    ensures
        encode_bytes(a + b) == encode_bytes(a) + encode_bytes(b),
    decreases b.len(),
{
    if b.len() == 0 {
        assert(a + b =~= a);
        assert(encode_bytes(a) + encode_bytes(b) =~= encode_bytes(a));
    } else {
        lemma_encode_bytes_append(a, b.drop_last());
        assert((a + b).drop_last() =~= a + b.drop_last());
        assert((a + b).last() == b.last());
        assert(encode_bytes(a + b) =~= encode_bytes(a) + encode_bytes(b));
    }
}

proof fn lemma_decode_encoded_byte(x: u8, t: Seq<char>)
    ensures
        percent_decode(encode_byte(x) + t) == seq![x] + percent_decode(t),
{
    let s = encode_byte(x) + t;
    if is_unreserved(x) {
        assert(s[0] == x as char);
        assert(s.skip(1) =~= t);
        assert((x as char) as u8 == x);
    } else {
        let (hi, lo) = (x / 16, x % 16);
        assert(s[0] == '%');
        assert(s[1] == hex_upper(hi));
        assert(s[2] == hex_upper(lo));
        assert(s.skip(3) =~= t);
        assert(hex_digit_value(hex_upper(hi)) == hi);
        assert(hex_digit_value(hex_upper(lo)) == lo);
        assert(16 * hi + lo == x);
    }
}

proof fn lemma_percent_roundtrip(bytes: Seq<u8>)
    ensures
        percent_decode(encode_bytes(bytes)) == bytes,
    decreases bytes.len(),
{
    if bytes.len() > 0 {
        let rest = bytes.drop_first();
        assert(bytes =~= seq![bytes[0]] + rest);
        lemma_encode_bytes_append(seq![bytes[0]], rest);
        assert(encode_bytes(seq![bytes[0]]) =~= encode_byte(bytes[0])) by {
            let one = seq![bytes[0]];
            assert(one.drop_last() =~= Seq::<u8>::empty());
            assert(encode_bytes(Seq::<u8>::empty()) == Seq::<char>::empty());
            assert(one.last() == bytes[0]);
            assert(encode_bytes(one) == encode_bytes(one.drop_last()) + encode_byte(one.last()));
        }
        lemma_decode_encoded_byte(bytes[0], encode_bytes(rest));
        lemma_percent_roundtrip(rest);
    }
}

/// O proxy recebe a URL inteira de volta: decodificar o parâmetro `url` dá
/// exatamente os bytes UTF-8 da URL pedida, qualquer que seja ela.
pub proof fn law_stream_url_roundtrip(url: Seq<char>)
    ensures
        percent_decode(urlencoding_spec(url)) == vstd::utf8::encode_utf8(url),
{
    lemma_percent_roundtrip(vstd::utf8::encode_utf8(url));
}

} // verus!
