//! Bundles: the shape in which patient records arrive from the record
//! endpoint, roughly ten patients at a time, each behind an entry wrapper.

use vstd::prelude::*;

use crate::patient::Patient;

verus! {

/// One entry of a bundle: a wrapper holding a patient record.
#[derive(Debug, PartialEq)]
pub struct Entry {
    pub resource: Patient,
}

/// A batch of entries, labelled by the endpoint.
#[derive(Debug, PartialEq)]
pub struct Bundle {
    pub id: String,
    pub entries: Vec<Entry>,
}

/// The patients of one bundle, in order.
pub open spec fn spec_bundle_patients(b: Bundle) -> Seq<Patient> {
    b.entries@.map_values(|e: Entry| e.resource)
}

/// The patients of a list of bundles, flattened in order.
pub open spec fn spec_all_patients(bs: Seq<Bundle>) -> Seq<Patient>
    decreases bs.len(),
{
    if bs.len() == 0 {
        Seq::empty()
    } else {
        spec_bundle_patients(bs[0]) + spec_all_patients(bs.skip(1))
    }
}

/// Pulls every patient out of its bundle and entry wrappers, keeping the
/// order in which they arrived.
pub fn bundle_patients(bundles: Vec<Bundle>) -> (r: Vec<Patient>)
    ensures
        r@ == spec_all_patients(bundles@),
{
    let ghost all = bundles@;
    let mut out: Vec<Patient> = Vec::new();
    let mut rest = bundles;
    proof {
        assert(out@ + spec_all_patients(rest@) =~= spec_all_patients(all));
    }
    while rest.len() > 0
        invariant
            spec_all_patients(all) == out@ + spec_all_patients(rest@),
        decreases rest.len(),
    {
        let ghost rest_before = rest@;
        let b = rest.remove(0);
        let ghost head_entries = b.entries@;
        proof {
            assert(rest@ =~= rest_before.skip(1));
            assert(b == rest_before[0]);
            assert(spec_all_patients(rest_before) == spec_bundle_patients(rest_before[0])
                + spec_all_patients(rest_before.skip(1)));
            assert(out@ + (head_entries.map_values(|e: Entry| e.resource) + spec_all_patients(
                rest@,
            )) =~= (out@ + head_entries.map_values(|e: Entry| e.resource)) + spec_all_patients(
                rest@,
            ));
        }
        let mut entries = b.entries;
        while entries.len() > 0
            invariant
                spec_all_patients(all) == (out@ + entries@.map_values(|e: Entry| e.resource))
                    + spec_all_patients(rest@),
            decreases entries.len(),
        {
            let ghost entries_before = entries@;
            let ghost out_before = out@;
            let e = entries.remove(0);
            out.push(e.resource);
            proof {
                assert(entries@ =~= entries_before.skip(1));
                assert(e == entries_before[0]);
                let f = |e2: Entry| e2.resource;
                assert(entries_before.map_values(f)[0] == e.resource);
                assert(entries@.map_values(f) =~= entries_before.map_values(f).skip(1));
                assert(out_before + entries_before.map_values(f) =~= out@ + entries@.map_values(
                    f,
                ));
            }
        }
        proof {
            assert(out@ + entries@.map_values(|e: Entry| e.resource) =~= out@);
        }
    }
    proof {
        assert(spec_all_patients(rest@) =~= Seq::<Patient>::empty());
        assert(out@ + spec_all_patients(rest@) =~= out@);
    }
    out
}

} // verus!
