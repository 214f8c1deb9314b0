//! Progresso, "já assistiu" e favoritos: as regras que não dependem do banco.

use vstd::prelude::*;

use crate::text::{chars_of, eq_lit, push_chars, push_lit, string_of};

verus! {

#[derive(Clone, Debug)]
pub struct EpisodeRef {
    pub id: String,
    pub series_id: String,
    pub season: i64,
    pub episode: i64,
    pub title: Option<String>,
}

/// Donos de progresso: um título (`item`) ou um episódio.
pub open spec fn is_owner_kind(kind: Seq<char>) -> bool {
    kind == "item"@ || kind == "episode"@
}

pub fn check_kind(owner_kind: &str) -> (r: Result<(), String>)
    ensures
        r is Ok <==> is_owner_kind(owner_kind@),
        r matches Err(m) ==> m@ == "owner_kind inválido: "@ + owner_kind@,
{
    let v = chars_of(owner_kind);
    if eq_lit(v.as_slice(), "item") || eq_lit(v.as_slice(), "episode") {
        Ok(())
    } else {
        let mut message: Vec<char> = Vec::new();
        push_lit(&mut message, "owner_kind inválido: ");
        push_lit(&mut message, owner_kind);
        Err(string_of(message.as_slice()))
    }
}

/// `toggle_favorite`: se a remoção apagou alguma linha, o título deixou de ser
/// favorito; senão ele é inserido e passa a ser.
pub fn favorite_after_toggle(removed: usize) -> (now_favorite: bool)
    ensures
        now_favorite == (removed == 0),
{
    removed == 0
}

/// O que `set_progress` grava. Os limiares são segundos em ponto flutuante e
/// chegam já avaliados: `below_minimum` (posição abaixo do mínimo de uma
/// sessão) e `reached_end` (posição na reta dos créditos de uma duração
/// conhecida). `existing` é o `completed` da linha que já existe, se existe.
/// `None` é não gravar; `Some(c)` é gravar com `completed = c`.
pub open spec fn progress_write(below_minimum: bool, reached_end: bool, existing: Option<bool>) -> Option<bool> {
    if below_minimum && existing is None {
        None
    } else {
        Some(reached_end || existing == Some(true))
    }
}

pub fn progress_decision(below_minimum: bool, reached_end: bool, existing: Option<bool>) -> (r: Option<bool>)
    ensures
        r == progress_write(below_minimum, reached_end, existing),
{
    if below_minimum && existing.is_none() {
        return None;
    }
    let was_completed = match existing {
        Some(c) => c,
        None => false,
    };
    Some(reached_end || was_completed)
}

/// Clique acidental não entra no histórico, mas quem já tem histórico grava
/// sempre, até voltando ao começo.
pub proof fn law_accidental_click(reached_end: bool, existing: Option<bool>)
    ensures
        progress_write(true, reached_end, None) is None,
        existing is Some ==> progress_write(true, reached_end, existing) is Some,
        progress_write(false, reached_end, existing) is Some,
{
}

/// Concluído fica concluído: gravar progresso nunca desmarca, e chegar aos
/// créditos marca.
pub proof fn law_completed_is_sticky(below_minimum: bool, reached_end: bool, existing: Option<bool>)
    ensures
        existing == Some(true) ==> progress_write(below_minimum, reached_end, existing) == Some(true),
        reached_end && progress_write(below_minimum, reached_end, existing) is Some
            ==> progress_write(below_minimum, reached_end, existing) == Some(true),
        !reached_end && existing != Some(true) ==> progress_write(below_minimum, reached_end, existing) != Some(true),
{
}

/// Mensagem de erro de uma operação recusada pelo banco.
pub fn stringify(detail: &str) -> (r: String)
    ensures
        r@ == "banco recusou a operação: "@ + detail@,
{
    let mut out: Vec<char> = Vec::new();
    push_lit(&mut out, "banco recusou a operação: ");
    let d = chars_of(detail);
    push_chars(&mut out, d.as_slice());
    string_of(out.as_slice())
}

} // verus!
