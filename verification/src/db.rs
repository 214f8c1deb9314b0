//! Versão do schema e relógio do banco local.

use std::time::{Duration, SystemTime, UNIX_EPOCH};

use vstd::prelude::*;

use crate::text::{int_text, push_i64_text, push_lit, string_of};

verus! {

pub const SCHEMA_VERSION: i64 = 2;

#[verifier::external_type_specification]
#[verifier::external_body]
pub struct ExSystemTime(SystemTime);

/// `SystemTime::now`: a hora do relógio do sistema. Depende do momento, então
/// o contrato não diz nada dela.
#[verifier::external_body]
fn system_now() -> (t: SystemTime) {
    SystemTime::now()
}

/// `SystemTime::duration_since(UNIX_EPOCH)`: o tempo decorrido desde a época,
/// `None` no lugar do erro que ela devolve quando a hora é anterior à época.
/// Depende da hora dada, que é opaca aqui: o contrato não diz nada do valor.
#[verifier::external_body]
fn since_epoch(t: &SystemTime) -> (r: Option<Duration>) {
    t.duration_since(UNIX_EPOCH).ok()
}

/// `Duration::as_secs`: os segundos inteiros de uma duração, que é opaca aqui;
/// o contrato não diz nada do valor.
#[verifier::external_body]
fn whole_secs(d: &Duration) -> (s: u64) {
    d.as_secs()
}

/// Carimbo de um tempo decorrido desde a época: os segundos como `i64` (a
/// conversão de `as`), zero quando o relógio está antes da época.
pub open spec fn stamp_spec(elapsed: Option<u64>) -> i64 {
    match elapsed {
        Some(secs) => secs as i64,
        None => 0,
    }
}

pub fn stamp(elapsed: Option<u64>) -> (r: i64)
    ensures
        r == stamp_spec(elapsed),
{
    match elapsed {
        Some(secs) => secs as i64,
        None => 0,
    }
}

/// Segundos desde a época — todo `*_at` do schema usa esta unidade; zero quando
/// o relógio está antes da época. O valor vem do relógio, então o contrato não
/// o fixa: é `stamp` do que o relógio deu.
pub fn now() -> (r: i64) {
    let elapsed = match since_epoch(&system_now()) {
        Some(d) => Some(whole_secs(&d)),
        None => None,
    };
    stamp(elapsed)
}

/// Quais migrações rodar a partir da versão gravada em `PRAGMA user_version`:
/// `(v1, v2)`. Banco mais novo que esta build é erro.
pub open spec fn migration_plan_spec(current: i64) -> Result<(bool, bool), Seq<char>> {
    if current == SCHEMA_VERSION {
        Ok((false, false))
    } else if current > SCHEMA_VERSION {
        Err("banco na versão "@ + int_text(current as int) + ", mais nova que esta build (2)"@)
    } else {
        Ok((current < 1, current < 2))
    }
}

pub fn migration_plan(current: i64) -> (r: Result<(bool, bool), String>)
    ensures
        match (r, migration_plan_spec(current)) {
            (Ok(a), Ok(b)) => a == b,
            (Err(m), Err(s)) => m@ == s,
            _ => false,
        },
{
    if current == SCHEMA_VERSION {
        return Ok((false, false));
    }
    if current > SCHEMA_VERSION {
        let mut message: Vec<char> = Vec::new();
        push_lit(&mut message, "banco na versão ");
        push_i64_text(&mut message, current);
        push_lit(&mut message, ", mais nova que esta build (2)");
        return Err(string_of(message.as_slice()));
    }
    Ok((current < 1, current < 2))
}


/// Reabrir um banco já migrado não roda migração; qualquer versão até a atual
/// migra sem erro.
pub proof fn law_migration_idempotent(current: i64)
    ensures
        migration_plan_spec(SCHEMA_VERSION) == Ok::<(bool, bool), Seq<char>>((false, false)),
        current <= SCHEMA_VERSION ==> migration_plan_spec(current) is Ok,
        current > SCHEMA_VERSION ==> migration_plan_spec(current) is Err,
{
}

} // verus!
