//! Classification and filtering of raw filesystem events.
//!
//! The OS notification layer delivers each raw event as a list of affected
//! paths and a kind. The kinds the pipeline distinguishes are modelled by
//! [`EventClass`]; the conversion from the notification library's own kind
//! type happens outside, at the subscription boundary. Metadata-only and
//! access events carry no content-relevant information and are dropped
//! whole; of the remaining events, only paths that are not ignored and
//! match a configured extension are forwarded to the debouncer.

use vstd::prelude::*;

use crate::filter::is_ignored_path;
use crate::filter::matches_extension;
use crate::filter::spec_is_ignored_path;
use crate::filter::spec_matches_extension;

verus! {

/// The kind of a raw filesystem event, as far as the pipeline cares.
pub enum EventClass {
    /// A file or directory came into being.
    Create,
    /// File content was written.
    Write,
    /// A file or directory was removed.
    Remove,
    /// Only metadata (permissions, timestamps) changed.
    MetadataOnly,
    /// The file was merely read.
    Access,
    /// Anything else the notification layer reports.
    Other,
}

/// Events that can carry a content-relevant change.
pub open spec fn spec_event_relevant(kind: EventClass) -> bool {
    !(kind is MetadataOnly || kind is Access)
}

/// A path worth forwarding: not under an ignored segment, and matching
/// one of the configured extensions.
pub open spec fn spec_keep_path(p: Seq<char>, exts: Seq<Seq<char>>) -> bool {
    !spec_is_ignored_path(p) && spec_matches_extension(p, exts)
}

/// The paths of one event that survive filtering, in event order.
pub open spec fn spec_surviving_paths(paths: Seq<Seq<char>>, exts: Seq<Seq<char>>) -> Seq<
    Seq<char>,
>
    decreases paths.len(),
{
    if paths.len() == 0 {
        Seq::empty()
    } else {
        let rest = spec_surviving_paths(paths.drop_last(), exts);
        if spec_keep_path(paths.last(), exts) {
            rest.push(paths.last())
        } else {
            rest
        }
    }
}

/// What one raw event forwards to the debouncer: nothing for an
/// irrelevant kind, the filtered path list otherwise.
pub open spec fn spec_forwarded_paths(
    kind: EventClass,
    paths: Seq<Seq<char>>,
    exts: Seq<Seq<char>>,
) -> Seq<Seq<char>> {
    if spec_event_relevant(kind) {
        spec_surviving_paths(paths, exts)
    } else {
        Seq::empty()
    }
}

/// True when the event kind may carry a content change.
pub fn event_relevant(kind: &EventClass) -> (r: bool)
    ensures
        r == spec_event_relevant(*kind),
{
    match kind {
        EventClass::MetadataOnly => false,
        EventClass::Access => false,
        _ => true,
    }
}

/// Applies the whole event-handling rule to one raw event: drops
/// metadata-only and access events, and filters the remaining paths
/// through the ignore and extension rules.
pub fn filter_event_paths(kind: &EventClass, paths: &Vec<String>, exts: &[String]) -> (r: Vec<
    String,
>)
    ensures
        r.deep_view() == spec_forwarded_paths(
            *kind,
            paths.deep_view(),
            exts@.map_values(|e: String| e@),
        ),
{
    let ghost ev = exts@.map_values(|e: String| e@);
    let mut r: Vec<String> = Vec::new();
    if !event_relevant(kind) {
        proof {
            assert(r.deep_view() =~= Seq::<Seq<char>>::empty());
        }
        return r;
    }
    let mut i: usize = 0;
    while i < paths.len()
        invariant
            ev == exts@.map_values(|e: String| e@),
            spec_event_relevant(*kind),
            0 <= i <= paths@.len(),
            r.deep_view() == spec_surviving_paths(paths.deep_view().take(i as int), ev),
        decreases paths@.len() - i,
    {
        let p = &paths[i];
        let keep = if is_ignored_path(p.as_str()) {
            false
        } else {
            matches_extension(p.as_str(), exts)
        };
        let ghost before = r.deep_view();
        if keep {
            r.push(p.clone());
            proof {
                assert(r.deep_view() =~= before.push(p@));
            }
        }
        proof {
            let pv = paths.deep_view();
            assert(pv.take(i + 1).drop_last() =~= pv.take(i as int));
            assert(pv.take(i + 1).last() == pv[i as int]);
            assert(pv[i as int] == p@);
            assert(keep == spec_keep_path(pv.take(i + 1).last(), ev));
        }
        i += 1;
    }
    proof {
        assert(paths.deep_view().take(paths@.len() as int) =~= paths.deep_view());
    }
    r
}

} // verus!
