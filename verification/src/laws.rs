//! The library's laws: properties that hold across several operations,
//! stated and proved over the same specifications the operations' own
//! contracts use.

use vstd::prelude::*;

use crate::arena::{Content, InoInfo};
use crate::fs::{spec_listing, spec_needs_population, spec_read_data, spec_rows};
use crate::populate::course_populated;
use crate::types::{Discussion, File, Homework, Notification};

verus! {

/// Idempotent lazy population: once a course's content has been
/// materialized, the one-shot flag is set, so the population gate is
/// closed — no later lookup or listing triggers another fetch.  Together
/// with `populate_course`'s own contract, which leaves a fetched course
/// untouched, a second population round is a no-op and observes the very
/// children the first one built.
pub proof fn lemma_population_once(
    old_nodes: Seq<InoInfo>,
    new_nodes: Seq<InoInfo>,
    ino: u64,
    hs: Seq<Homework>,
    ns: Seq<Notification>,
    fs: Seq<File>,
    ds: Seq<Discussion>,
)
    requires
        ino < old_nodes.len(),
        old_nodes[ino as int] is Course,
        course_populated(old_nodes, new_nodes, ino, hs, ns, fs, ds),
    ensures
        spec_needs_population(new_nodes, ino) is None,
{
    assert(new_nodes[ino as int]->Course_fetched);
}

/// Ordering preservation: a directory has one enumeration, in insertion
/// order, and every readdir answers a suffix of it.  Any partial reads
/// therefore reassemble that one enumeration: what a call from offset `a`
/// returns up to offset `b`, continued by a call from `b`, is exactly the
/// enumeration from `a` — regardless of the order the calls are made in.
pub proof fn lemma_readdir_reassembles(nodes: Seq<InoInfo>, ino: u64, a: int, b: int)
    requires
        ino < nodes.len(),
        spec_listing(nodes, ino) is Some,
        0 <= a <= b <= spec_rows(nodes, ino).len(),
    ensures
        spec_rows(nodes, ino).skip(a) == spec_rows(nodes, ino).skip(a).take(b - a) + spec_rows(
            nodes,
            ino,
        ).skip(b),
{
    let rows = spec_rows(nodes, ino);
    assert(rows.skip(a) =~= rows.skip(a).take(b - a) + rows.skip(b));
}

/// Resolved-once content: a node still in address form reads as empty,
/// and once its bytes are committed it is never an address again — a
/// later open finds nothing to resolve and every read sees exactly the
/// committed bytes.
pub proof fn lemma_resolved_once(nodes: Seq<InoInfo>, ino: u64, data: Seq<u8>)
    requires
        ino < nodes.len(),
        nodes[ino as int] matches InoInfo::Content(c) && (c matches Content::Data(d) && d@
            == data),
    ensures
        !(nodes[ino as int] matches InoInfo::Content(Content::Url(_, _))),
        spec_read_data(nodes, ino) == Ok::<Seq<u8>, crate::fs::FsError>(data),
{
}

/// The unresolved side of resolved-once content: before any successful
/// open, an address-form node reads as empty bytes.
pub proof fn lemma_unresolved_reads_empty(nodes: Seq<InoInfo>, ino: u64)
    requires
        ino < nodes.len(),
        nodes[ino as int] matches InoInfo::Content(Content::Url(_, _)),
    ensures
        spec_read_data(nodes, ino) == Ok::<Seq<u8>, crate::fs::FsError>(Seq::<u8>::empty()),
{
}

} // verus!
