//! Preferências do app: a escolha da chave do TMDB.

use vstd::prelude::*;

use crate::text::{chars_of, string_of, trim, trim_chars};

verus! {

pub const TMDB_KEY: &'static str = "tmdb_api_key";

/// Um valor que conta: não vazio depois de aparado.
pub open spec fn usable(v: Option<Seq<char>>) -> Option<Seq<char>> {
    match v {
        Some(s) => if trim(s).len() > 0 { Some(trim(s)) } else { None },
        None => None,
    }
}

/// A chave colada no onboarding manda; a do ambiente é o fallback; valor em
/// branco conta como ausente, e a chave sai aparada.
pub open spec fn tmdb_key_spec(stored: Option<Seq<char>>, env: Option<Seq<char>>) -> Option<Seq<char>> {
    match usable(stored) {
        Some(k) => Some(k),
        None => usable(env),
    }
}

fn usable_exec(v: Option<&str>) -> (r: Option<String>)
    ensures
        match r {
            Some(s) => usable(match v { Some(x) => Some(x@), None => None }) == Some(s@),
            None => usable(match v { Some(x) => Some(x@), None => None }) == None::<Seq<char>>,
        },
{
    match v {
        Some(s) => {
            let c = chars_of(s);
            let t = trim_chars(c.as_slice());
            if t.len() > 0 {
                Some(string_of(t.as_slice()))
            } else {
                None
            }
        },
        None => None,
    }
}

pub fn choose_tmdb_key(stored: Option<&str>, env: Option<&str>) -> (r: Option<String>)
    ensures
        match r {
            Some(s) => tmdb_key_spec(
                match stored { Some(x) => Some(x@), None => None },
                match env { Some(x) => Some(x@), None => None },
            ) == Some(s@),
            None => tmdb_key_spec(
                match stored { Some(x) => Some(x@), None => None },
                match env { Some(x) => Some(x@), None => None },
            ) == None::<Seq<char>>,
        },
{
    match usable_exec(stored) {
        Some(k) => Some(k),
        None => usable_exec(env),
    }
}


/// Valor em branco conta como ausente: uma chave guardada só com espaços cede
/// para a do ambiente, e a chave escolhida nunca é vazia.
pub proof fn law_blank_key_is_absent(stored: Seq<char>, env: Option<Seq<char>>)
    ensures
        trim(stored).len() == 0 ==> tmdb_key_spec(Some(stored), env) == usable(env),
        tmdb_key_spec(Some(stored), env) matches Some(k) ==> k.len() > 0,
{
}

} // verus!
