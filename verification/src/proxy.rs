//! Proxy local de streams: o que ele aceita repassar e como se apresenta à
//! origem. A escuta e o repasse dos bytes ficam com quem roda o servidor.

use vstd::prelude::*;

use crate::text::{chars_of, starts_with_lit};

verus! {

/// Alguns servidores Xtream recusam clientes que não se anunciam como player.
pub const PLAYER_AGENT: &'static str = "VLC/3.0.20 LibVLC/3.0.20";

/// O proxy só repassa HTTP e HTTPS.
pub open spec fn proxied(url: Seq<char>) -> bool {
    ||| (7 <= url.len() && url.take(7) == "http://"@)
    ||| (8 <= url.len() && url.take(8) == "https://"@)
}

/// Recusa, com a mensagem da resposta 400, o que não é HTTP nem HTTPS.
pub fn check_stream_url(url: &str) -> (r: Result<(), String>)
    ensures
        r is Ok <==> proxied(url@),
        r matches Err(m) ==> m@ == "somente http e https"@,
{
    let v = chars_of(url);
    proof {
        reveal_strlit("http://");
        reveal_strlit("https://");
    }
    if starts_with_lit(v.as_slice(), "http://") || starts_with_lit(v.as_slice(), "https://") {
        Ok(())
    } else {
        Err(String::from_str("somente http e https"))
    }
}

} // verus!
