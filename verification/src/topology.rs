//! Selection of the monitored hosts from the topology's link table.
//!
//! Every node that owns a link entry is monitored unless it is listed as a
//! dummy node.

use vstd::prelude::*;

verus! {

/// Whether some string of `v` reads the same as `s`.
pub open spec fn spec_contains_str(v: Seq<String>, s: Seq<char>) -> bool {
    exists|i: int| 0 <= i < v.len() && v[i]@ == s
}

/// Whether `name` names a dummy node.
pub open spec fn spec_is_dummy(dummy: Option<Vec<String>>, name: Seq<char>) -> bool {
    match dummy {
        Some(v) => spec_contains_str(v@, name),
        None => false,
    }
}

/// Whether some string of `v` reads the same as `s`.
fn vec_contains_str(v: &Vec<String>, s: &String) -> (r: bool)
    ensures
        r == spec_contains_str(v@, s@),
{
    let n = v.len();
    let mut i: usize = 0;
    while i < n
        invariant
            i <= n,
            n == v@.len(),
            forall|k: int| 0 <= k < i ==> (#[trigger] v@[k])@ != s@,
        decreases n - i,
    {
        if v[i].eq(s) {
            return true;
        }
        i = i + 1;
    }
    false
}

/// The monitored hosts: every linked node that is not a dummy node, kept
/// in table order.
pub fn monitored_hosts(link_names: &Vec<String>, dummy_nodes: &Option<Vec<String>>) -> (r: Vec<
    String,
>)
    ensures
        r@ == link_names@.filter(|h: String| !spec_is_dummy(*dummy_nodes, h@)),
{
    let ghost pred = |h: String| !spec_is_dummy(*dummy_nodes, h@);
    let mut out: Vec<String> = Vec::new();
    let n = link_names.len();
    let mut i: usize = 0;
    proof {
        reveal(Seq::filter);
        assert(link_names@.take(0) =~= Seq::<String>::empty());
        assert(out@ =~= link_names@.take(0).filter(pred));
    }
    while i < n
        invariant
            i <= n,
            n == link_names@.len(),
            pred == (|h: String| !spec_is_dummy(*dummy_nodes, h@)),
            out@ == link_names@.take(i as int).filter(pred),
        decreases n - i,
    {
        let name = &link_names[i];
        let keep = match dummy_nodes {
            Some(d) => !vec_contains_str(d, name),
            None => true,
        };
        proof {
            assert(keep == pred(link_names@[i as int]));
        }
        if keep {
            out.push(name.clone());
        }
        proof {
            reveal(Seq::filter);
            assert(link_names@.take(i + 1).drop_last() =~= link_names@.take(i as int));
            assert(link_names@.take(i + 1).last() == link_names@[i as int]);
        }
        i = i + 1;
    }
    proof {
        assert(link_names@.take(n as int) =~= link_names@);
    }
    out
}

} // verus!
