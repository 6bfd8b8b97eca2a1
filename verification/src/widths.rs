//! The width marker registry: one lightweight tag per distinct bit width of
//! a schema, plus the generic tag scaffolding used by width-generic callers.
//!
//! The registry is a pure derivation from the schema: it keeps the first
//! occurrence of every width and drops later repetitions.

use vstd::prelude::*;

verus! {

use crate::layout::schema_widths;

/// The distinct values of a sequence, each kept at its first occurrence.
pub open spec fn dedup_first(ws: Seq<u8>) -> Seq<u8>
    decreases ws.len(),
{
    if ws.len() == 0 {
        Seq::empty()
    } else {
        let rest = dedup_first(ws.drop_last());
        if rest.contains(ws.last()) {
            rest
        } else {
            rest.push(ws.last())
        }
    }
}

/// Deduplication keeps no width twice.
pub proof fn lemma_dedup_first_no_duplicates(ws: Seq<u8>)
    ensures
        dedup_first(ws).no_duplicates(),
    decreases ws.len(),
{
    if ws.len() > 0 {
        lemma_dedup_first_no_duplicates(ws.drop_last());
        let rest = dedup_first(ws.drop_last());
        if !rest.contains(ws.last()) {
            let out = rest.push(ws.last());
            assert forall|i: int, j: int| 0 <= i < out.len() && 0 <= j < out.len() && i != j
                implies out[i] != out[j] by {
                if i < rest.len() && j < rest.len() {
                    assert(rest[i] == out[i] && rest[j] == out[j]);
                } else if i < rest.len() {
                    assert(!rest.contains(out[j]) && rest[i] == out[i]);
                } else {
                    assert(!rest.contains(out[i]) && rest[j] == out[j]);
                }
            }
        }
    }
}

/// Deduplication keeps exactly the widths that occur in the input.
pub proof fn lemma_dedup_first_contains(ws: Seq<u8>, w: u8)
    ensures
        dedup_first(ws).contains(w) <==> ws.contains(w),
    decreases ws.len(),
{
    if ws.len() > 0 {
        let last = ws.last();
        let prefix = ws.drop_last();
        let rest = dedup_first(prefix);
        lemma_dedup_first_contains(prefix, w);
        assert(ws[ws.len() - 1] == last);
        assert(ws.contains(last));
        if prefix.contains(w) {
            let k = choose|k: int| 0 <= k < prefix.len() && prefix[k] == w;
            assert(ws[k] == w);
            assert(ws.contains(w));
        }
        if ws.contains(w) && w != last {
            let k = choose|k: int| 0 <= k < ws.len() && ws[k] == w;
            assert(k < ws.len() - 1);
            assert(prefix[k] == w);
            assert(prefix.contains(w));
        }
        if !rest.contains(last) {
            let out = rest.push(last);
            assert(out[rest.len() as int] == last);
            assert(out.contains(last));
            if rest.contains(w) {
                let k = choose|k: int| 0 <= k < rest.len() && rest[k] == w;
                assert(out[k] == w);
                assert(out.contains(w));
            }
            if out.contains(w) && w != last {
                let k = choose|k: int| 0 <= k < out.len() && out[k] == w;
                assert(k != rest.len());
                assert(rest[k] == w);
                assert(rest.contains(w));
            }
        }
    }
}

/// The widths carried by a sequence of markers, in the same order.
pub open spec fn marker_widths(ms: Seq<WidthMarker>) -> Seq<u8> {
    ms.map_values(|m: WidthMarker| m.width)
}

/// A capability tag for one bit width: a value-level stand-in for a
/// width-generic type, carrying the width it certifies.
#[derive(Clone, Copy, Debug, PartialEq, Eq, Structural)]
pub struct WidthMarker {
    pub width: u8,
}

impl WidthMarker {
    /// The bit width this marker certifies.
    pub fn bits(&self) -> (r: u8)
        ensures
            r == self.width,
    {
        self.width
    }
}

/// The distinct widths of a schema, in order of first appearance.
pub fn distinct_widths(fields: &Vec<(String, u8)>) -> (r: Vec<u8>)
    ensures
        r@ == dedup_first(schema_widths(fields@)),
        r@.no_duplicates(),
        forall|w: u8| r@.contains(w) <==> schema_widths(fields@).contains(w),
{
    let ghost ws = schema_widths(fields@);
    let mut out: Vec<u8> = Vec::new();
    let mut i: usize = 0;
    proof {
        assert(ws.take(0) =~= Seq::<u8>::empty());
    }
    while i < fields.len()
        invariant
            i <= fields@.len(),
            ws == schema_widths(fields@),
            out@ == dedup_first(ws.take(i as int)),
        decreases fields@.len() - i,
    {
        let p: &(String, u8) = &fields[i];
        let w: u8 = p.1;
        let mut found: bool = false;
        let mut k: usize = 0;
        while k < out.len()
            invariant
                k <= out@.len(),
                found <==> exists|t: int| 0 <= t < k && out@[t] == w,
            decreases out@.len() - k,
        {
            if out[k] == w {
                found = true;
            }
            k = k + 1;
        }
        proof {
            assert(found <==> out@.contains(w));
            assert(ws.take(i as int + 1).drop_last() =~= ws.take(i as int));
            assert(ws.take(i as int + 1).last() == ws[i as int]);
            assert(ws[i as int] == w);
        }
        if !found {
            out.push(w);
        }
        i = i + 1;
    }
    proof {
        assert(ws.take(fields@.len() as int) =~= ws);
        lemma_dedup_first_no_duplicates(ws);
        assert forall|w: u8| out@.contains(w) <==> ws.contains(w) by {
            lemma_dedup_first_contains(ws, w);
        }
    }
    out
}

/// The marker registry of a schema: one marker per distinct width, in
/// order of first appearance.
pub fn width_markers(fields: &Vec<(String, u8)>) -> (r: Vec<WidthMarker>)
    ensures
        marker_widths(r@) == dedup_first(schema_widths(fields@)),
{
    let ws = distinct_widths(fields);
    let mut out: Vec<WidthMarker> = Vec::new();
    let mut i: usize = 0;
    while i < ws.len()
        invariant
            i <= ws@.len(),
            out@.len() == i,
            forall|t: int| 0 <= t < i ==> out@[t].width == ws@[t],
        decreases ws@.len() - i,
    {
        let w: u8 = ws[i];
        out.push(WidthMarker { width: w });
        i = i + 1;
    }
    proof {
        assert(marker_widths(out@) =~= ws@);
    }
    out
}

/// A type-level tag: an implementing type names the kind of value it
/// stands for.
pub trait Trait {
    type Value;
}

/// Storage for a run of values under a tag type.
#[allow(dead_code)]
pub struct Field<T: Trait> {
    values: Vec<T::Value>,
}

/// Pairs tagged storage with one untagged companion value.
#[allow(dead_code)]
pub struct Wrapper<T: Trait, U> {
    field: Field<T>,
    normal: U,
}

/// Compile-time check that a type can be formatted for debugging.
pub fn assert_debug<F: core::fmt::Debug>() {
}

} // verus!
