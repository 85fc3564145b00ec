//! Laws that relate the store's operations, stated over the same models
//! their contracts use: the mapping view of the store and [`parse_json`],
//! the meaning of persisted text.
//!
//! The round trip itself — rendered text parses back to the rendered
//! mapping — is [`crate::json::lemma_render_parses`], and is what the
//! `ensures` of [`crate::store::Todo::to_json`] rests on.

use vstd::prelude::*;

use crate::json::is_ws_char;
use crate::json::lemma_skip_ws_prefix;
use crate::json::parse_json;
use crate::json::skip_ws;
use crate::Status;

verus! {

/// Loading blank text yields the empty mapping: text of nothing but
/// whitespace (an empty or freshly created file among it) denotes the
/// empty store, never an error.
pub proof fn lemma_parse_blank(s: Seq<char>)
    requires
        forall|i: int| 0 <= i < s.len() ==> is_ws_char(#[trigger] s[i]),
    ensures
        parse_json(s) == Some(Map::<Seq<char>, Status>::empty()),
{
    assert(s + Seq::<char>::empty() =~= s);
    lemma_skip_ws_prefix(s, Seq::empty());
    assert(skip_ws(Seq::<char>::empty()).len() == 0);
}

/// Loading is repeatable: the mapping reconstructed from a text is a
/// function of the text alone, so loading the same text twice, with no
/// write in between, yields identical mappings.
pub proof fn lemma_load_repeatable(
    s: Seq<char>,
    m1: Map<Seq<char>, Status>,
    m2: Map<Seq<char>, Status>,
)
    requires
        parse_json(s) == Some(m1),
        parse_json(s) == Some(m2),
    ensures
        m1 == m2,
{
}

/// Inserting an item twice is the same as inserting it once, and leaves
/// exactly one entry for it, pending.
pub proof fn lemma_insert_overwrite(m: Map<Seq<char>, Status>, k: Seq<char>)
    ensures
        m.insert(k, Status::Pending).insert(k, Status::Pending) == m.insert(k, Status::Pending),
        m.insert(k, Status::Pending).contains_key(k),
        m.insert(k, Status::Pending)[k] == Status::Pending,
{
    assert(m.insert(k, Status::Pending).insert(k, Status::Pending) =~= m.insert(
        k,
        Status::Pending,
    ));
}

/// Completing a present item only flips that item's flag, whatever it was
/// before: the set of items is unchanged, the item ends completed, and
/// every other item keeps its status.
pub proof fn lemma_complete_flips_one(m: Map<Seq<char>, Status>, k: Seq<char>)
    requires
        m.contains_key(k),
    ensures
        m.insert(k, Status::Completed).dom() == m.dom(),
        m.insert(k, Status::Completed)[k] == Status::Completed,
        forall|k2: Seq<char>|
            m.contains_key(k2) && k2 != k ==> m.insert(k, Status::Completed)[k2] == m[k2],
{
    assert(m.insert(k, Status::Completed).dom() =~= m.dom());
}

} // verus!
