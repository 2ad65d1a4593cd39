//! Finding the adb executable among the places an installation may put it.
use vstd::prelude::*;
use crate::text::string_views;

verus! {

/// The places to look for adb, in order: the bundled resource (where the host
/// could name one), then two folders beside the executable.
pub open spec fn candidates_spec(
    resource: Option<Seq<char>>,
    exe_dir: Option<Seq<char>>,
    adb_name: Seq<char>,
) -> Seq<Seq<char>> {
    (match resource {
        Some(r) => seq![r],
        None => seq![],
    }) + (match exe_dir {
        Some(d) => seq![
            d + "/resources/platform-tools/"@ + adb_name,
            d + "/_up_/platform-tools/"@ + adb_name,
        ],
        None => seq![],
    })
}

fn joined(dir: &str, middle: &str, name: &str) -> (r: String)
    ensures
        r@ == dir@ + middle@ + name@,
{
    let mut s = String::from_str(dir);
    s.append(middle);
    s.append(name);
    s
}

pub fn adb_candidates(resource: Option<String>, exe_dir: Option<String>, adb_name: &str) -> (r: Vec<String>)
    ensures
        string_views(r@) == candidates_spec(
            match resource {
                Some(s) => Some(s@),
                None => None,
            },
            match exe_dir {
                Some(s) => Some(s@),
                None => None,
            },
            adb_name@,
        ),
{
    let mut out: Vec<String> = Vec::new();
    let ghost first: Seq<Seq<char>> = match &resource {
        Some(s) => seq![s@],
        None => seq![],
    };
    match resource {
        Some(p) => out.push(p),
        None => {},
    }
    assert(string_views(out@) =~= first);
    match exe_dir {
        Some(d) => {
            let a = joined(d.as_str(), "/resources/platform-tools/", adb_name);
            let b = joined(d.as_str(), "/_up_/platform-tools/", adb_name);
            out.push(a);
            out.push(b);
            assert(string_views(out@) =~= first + seq![a@, b@]);
        },
        None => {
            assert(string_views(out@) =~= first + seq![]);
        },
    }
    out
}

/// The candidates joined by `, `.
pub open spec fn join_paths(s: Seq<Seq<char>>) -> Seq<char>
    decreases s.len(),
{
    if s.len() == 0 {
        seq![]
    } else if s.len() == 1 {
        s[0]
    } else {
        join_paths(s.drop_last()) + ", "@ + s.last()
    }
}

pub open spec fn not_found_message(tried: Seq<Seq<char>>) -> Seq<char> {
    "ADB not found in built-in locations. Tried: "@ + join_paths(tried)
}

/// The first candidate that exists; where none does, an error that lists them all.
pub fn pick_adb_path(candidates: &Vec<(String, bool)>) -> (r: Result<String, String>)
    ensures
        r is Ok <==> exists|i: int| 0 <= i < candidates@.len() && #[trigger] candidates@[i].1,
        match r {
            Ok(p) => exists|i: int|
                0 <= i < candidates@.len() && candidates@[i].1 && p == candidates@[i].0 && forall|
                    j: int,
                | 0 <= j < i ==> !#[trigger] candidates@[j].1,
            Err(e) => e@ == not_found_message(
                candidates@.map_values(|c: (String, bool)| c.0@),
            ),
        },
{
    let mut i: usize = 0;
    while i < candidates.len()
        invariant
            i <= candidates@.len(),
            forall|j: int| 0 <= j < i ==> !#[trigger] candidates@[j].1,
        decreases candidates@.len() - i,
    {
        if candidates[i].1 {
            return Ok(candidates[i].0.clone());
        }
        i = i + 1;
    }
    let ghost names = candidates@.map_values(|c: (String, bool)| c.0@);
    let mut msg = String::from_str("ADB not found in built-in locations. Tried: ");
    let ghost prefix = msg@;
    let mut k: usize = 0;
    assert(names.take(0) =~= seq![]);
    while k < candidates.len()
        invariant
            k <= candidates@.len(),
            names == candidates@.map_values(|c: (String, bool)| c.0@),
            prefix == "ADB not found in built-in locations. Tried: "@,
            msg@ == prefix + join_paths(names.take(k as int)),
        decreases candidates@.len() - k,
    {
        assert(names.take(k + 1).drop_last() =~= names.take(k as int));
        assert(names.take(k + 1).last() == candidates@[k as int].0@);
        if k > 0 {
            msg.append(", ");
        }
        msg.append(candidates[k].0.as_str());
        if k == 0 {
            assert(join_paths(names.take(1)) == names.take(1)[0]);
        }
        k = k + 1;
    }
    assert(names.take(k as int) =~= names);
    Err(msg)
}

} // verus!
