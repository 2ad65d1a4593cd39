//! Planning a reinstall from a backup directory and judging adb's answer.
use vstd::prelude::*;
use crate::text::{
    last_index_in, last_index_of,
    chars_lt, chars_of, lemma_seq_lt_irreflexive, lemma_seq_lt_total, lemma_seq_lt_transitive,
    push_decimal, decimal, seq_lt, string_of, string_views,
};

verus! {

/// One entry of a backup directory as listed from disk.
pub struct FileItem {
    pub name: String,
    pub path: String,
    pub is_file: bool,
}

impl View for FileItem {
    type V = (Seq<char>, Seq<char>, bool);

    open spec fn view(&self) -> (Seq<char>, Seq<char>, bool) {
        (self.name@, self.path@, self.is_file)
    }
}

pub open spec fn file_views(v: Seq<FileItem>) -> Seq<(Seq<char>, Seq<char>, bool)> {
    v.map_values(|f: FileItem| f@)
}

/// `c` is the ASCII letter whose lower-case code is `lower`, in either case.
pub open spec fn ascii_ci(c: char, lower: u32) -> bool {
    (c as u32) == lower || (c as u32) == lower - 32
}

/// The file name has the extension `apk` in any case, as `Path::extension` finds
/// it: the text after the last `.`, where that `.` does not start the name.
pub open spec fn is_apk_name(name: Seq<char>) -> bool {
    let i = last_index_of(name, '.');
    &&& i > 0
    &&& name.len() == i + 4
    &&& ascii_ci(name[i + 1], 0x61)
    &&& ascii_ci(name[i + 2], 0x70)
    &&& ascii_ci(name[i + 3], 0x6b)
}

/// The APK files among the items, as `(name, path)`, in listing order.
pub open spec fn apk_files(fs: Seq<(Seq<char>, Seq<char>, bool)>) -> Seq<(Seq<char>, Seq<char>)>
    decreases fs.len(),
{
    if fs.len() == 0 {
        seq![]
    } else {
        let r = apk_files(fs.drop_last());
        let f = fs.last();
        if f.2 && is_apk_name(f.0) {
            r.push((f.0, f.1))
        } else {
            r
        }
    }
}

/// Ascending by name; equal names in any order.
pub open spec fn sorted_by_name(v: Seq<(Seq<char>, Seq<char>)>) -> bool {
    forall|i: int, j: int| 0 <= i < j < v.len() ==> !seq_lt(#[trigger] v[j].0, #[trigger] v[i].0)
}

fn is_ci(c: char, lower: u32) -> (r: bool)
    requires
        lower >= 32,
    ensures
        r == ascii_ci(c, lower),
{
    (c as u32) == lower || (c as u32) == lower - 32
}

/// Whether a file name carries the `apk` extension, in any case.
pub fn has_apk_extension(name: &Vec<char>) -> (r: bool)
    ensures
        r == is_apk_name(name@),
{
    match last_index_in(name, '.') {
        None => false,
        Some(i) => {
            i > 0 && name.len() - i == 4 && is_ci(name[i + 1], 0x61) && is_ci(name[i + 2], 0x70)
                && is_ci(name[i + 3], 0x6b)
        },
    }
}

proof fn lemma_insert_multiset<A>(s: Seq<A>, p: int, x: A)
    requires
        0 <= p <= s.len(),
    ensures
        s.insert(p, x).to_multiset() == s.to_multiset().insert(x),
{
    let a = s.take(p);
    let b = s.skip(p);
    assert(s.insert(p, x) =~= a.push(x) + b);
    assert(s =~= a + b);
    vstd::seq_lib::lemma_multiset_commutative(a.push(x), b);
    vstd::seq_lib::lemma_multiset_commutative(a, b);
    a.to_multiset_ensures();
    assert(a.push(x).to_multiset() =~= a.to_multiset().insert(x));
    assert(a.to_multiset().insert(x).add(b.to_multiset()) =~= a.to_multiset().add(
        b.to_multiset(),
    ).insert(x));
}

/// The APK files among `files`, ordered by file name (a stable sort), as
/// `(name, path)` pairs.
pub fn sorted_apks(files: &Vec<FileItem>) -> (r: Vec<(String, String)>)
    ensures
        sorted_by_name(r@.map_values(|p: (String, String)| (p.0@, p.1@))),
        r@.map_values(|p: (String, String)| (p.0@, p.1@)).to_multiset() == apk_files(
            file_views(files@),
        ).to_multiset(),
{
    let ghost fv = file_views(files@);
    let mut out: Vec<(String, String)> = Vec::new();
    let mut names: Vec<Vec<char>> = Vec::new();
    let mut i: usize = 0;
    assert(fv.take(0) =~= seq![]);
    assert(out@.map_values(|p: (String, String)| (p.0@, p.1@)) =~= seq![]);
    while i < files.len()
        invariant
            fv == file_views(files@),
            i <= files@.len(),
            names@.len() == out@.len(),
            forall|j: int| 0 <= j < names@.len() ==> (#[trigger] names@[j])@ == out@[j].0@,
            sorted_by_name(out@.map_values(|p: (String, String)| (p.0@, p.1@))),
            out@.map_values(|p: (String, String)| (p.0@, p.1@)).to_multiset() == apk_files(
                fv.take(i as int),
            ).to_multiset(),
        decreases files@.len() - i,
    {
        let f = &files[i];
        let ghost ov = out@.map_values(|p: (String, String)| (p.0@, p.1@));
        assert(fv.take(i + 1).drop_last() =~= fv.take(i as int));
        assert(fv.take(i + 1).last() == f@);
        let name = chars_of(f.name.as_str());
        if f.is_file && has_apk_extension(&name) {
            let mut p: usize = 0;
            while p < names.len() && !chars_lt(&name, &names[p])
                invariant
                    p <= names@.len(),
                    names@.len() == out@.len(),
                    ov == out@.map_values(|p: (String, String)| (p.0@, p.1@)),
                    forall|j: int| 0 <= j < names@.len() ==> (#[trigger] names@[j])@ == out@[j].0@,
                    forall|j: int| 0 <= j < p ==> !seq_lt(name@, #[trigger] ov[j].0),
                decreases names@.len() - p,
            {
                assert(ov[p as int].0 == names@[p as int]@);
                p = p + 1;
            }
            let x = (f.name.clone(), f.path.clone());
            let ghost xv = (x.0@, x.1@);
            proof {
                if p < names@.len() {
                    assert(ov[p as int].0 == names@[p as int]@);
                    assert(seq_lt(name@, ov[p as int].0));
                }
                let w = ov.insert(p as int, xv);
                ov.insert_ensures(p as int, xv);
                assert forall|a: int, b: int| 0 <= a < b < w.len() implies !seq_lt(
                    #[trigger] w[b].0,
                    #[trigger] w[a].0,
                ) by {
                    if b < p {
                    } else if b == p {
                    } else if a == p {
                        assert(w[b] == ov[b - 1]);
                        let c = ov[b - 1].0;
                        if b - 1 > p {
                            assert(!seq_lt(c, ov[p as int].0));
                            lemma_seq_lt_total(c, ov[p as int].0);
                            if c != ov[p as int].0 {
                                lemma_seq_lt_transitive(name@, ov[p as int].0, c);
                            }
                        }
                        lemma_seq_lt_total(name@, c);
                    } else if a < p {
                        assert(w[b] == ov[b - 1]);
                        assert(!seq_lt(ov[b - 1].0, ov[a].0));
                    } else {
                        assert(w[a] == ov[a - 1]);
                        assert(w[b] == ov[b - 1]);
                    }
                }
                lemma_insert_multiset(ov, p as int, xv);
            }
            let ghost old_out = out@;
            let ghost old_names = names@;
            out.insert(p, x);
            names.insert(p, name);
            assert(out@.map_values(|p: (String, String)| (p.0@, p.1@)) =~= ov.insert(p as int, xv));
            proof {
                let prev = apk_files(fv.take(i as int));
                assert(xv == (f@.0, f@.1));
                assert(apk_files(fv.take(i + 1)) == prev.push(xv));
                prev.to_multiset_ensures();
            }
            assert forall|j: int| 0 <= j < names@.len() implies (#[trigger] names@[j])@ == out@[j].0@ by {
                if j > p {
                    assert(names@[j] == old_names[j - 1]);
                    assert(out@[j] == old_out[j - 1]);
                } else if j < p {
                    assert(names@[j] == old_names[j]);
                    assert(out@[j] == old_out[j]);
                }
            }
        } else {
            assert(apk_files(fv.take(i + 1)) == apk_files(fv.take(i as int)));
        }
        i = i + 1;
    }
    assert(fv.take(i as int) =~= fv);
    out
}

pub open spec fn install_command(n: nat) -> Seq<char> {
    if n > 1 {
        "install-multiple"@
    } else {
        "install"@
    }
}

/// The adb arguments that reinstall `paths` for user 0, replacing what is there.
pub open spec fn install_args(paths: Seq<Seq<char>>) -> Seq<Seq<char>> {
    seq![install_command(paths.len()), "-r"@, "--user"@, "0"@] + paths
}

pub open spec fn no_apks_message() -> Seq<char> {
    "No .apk files found in selected folder"@
}

/// The adb arguments that reinstall the APK files of a backup directory, in
/// file-name order; an error where the directory holds none.
pub fn restore_plan(files: &Vec<FileItem>) -> (r: Result<Vec<String>, String>)
    ensures
        match r {
            Ok(args) => apk_files(file_views(files@)).len() > 0 && exists|sorted: Seq<(Seq<char>, Seq<char>)>|
                {
                    &&& sorted_by_name(sorted)
                    &&& sorted.to_multiset() == apk_files(file_views(files@)).to_multiset()
                    &&& string_views(args@) == install_args(
                        sorted.map_values(|f: (Seq<char>, Seq<char>)| f.1),
                    )
                },
            Err(e) => apk_files(file_views(files@)).len() == 0 && e@ == no_apks_message(),
        },
{
    let apks = sorted_apks(files);
    let ghost sv = apks@.map_values(|p: (String, String)| (p.0@, p.1@));
    let ghost all = apk_files(file_views(files@));
    proof {
        sv.to_multiset_ensures();
        all.to_multiset_ensures();
    }
    if apks.len() == 0 {
        return Err(String::from_str("No .apk files found in selected folder"));
    }
    let mut args: Vec<String> = Vec::new();
    if apks.len() > 1 {
        args.push(String::from_str("install-multiple"));
    } else {
        args.push(String::from_str("install"));
    }
    args.push(String::from_str("-r"));
    args.push(String::from_str("--user"));
    args.push(String::from_str("0"));
    let ghost head = seq![install_command(sv.len()), "-r"@, "--user"@, "0"@];
    assert(string_views(args@) =~= head);
    let mut i: usize = 0;
    while i < apks.len()
        invariant
            i <= apks@.len(),
            sv == apks@.map_values(|p: (String, String)| (p.0@, p.1@)),
            string_views(args@) == head + sv.take(i as int).map_values(
                |f: (Seq<char>, Seq<char>)| f.1,
            ),
        decreases apks@.len() - i,
    {
        let path = apks[i].1.clone();
        let ghost before = string_views(args@);
        assert(sv[i as int].1 == path@);
        assert(sv.take(i + 1) =~= sv.take(i as int).push(sv[i as int]));
        assert(sv.take(i + 1).map_values(|f: (Seq<char>, Seq<char>)| f.1) =~= sv.take(
            i as int,
        ).map_values(|f: (Seq<char>, Seq<char>)| f.1).push(path@));
        args.push(path);
        assert(string_views(args@) =~= before.push(path@));
        i = i + 1;
        assert(string_views(args@) =~= head + sv.take(i as int).map_values(
            |f: (Seq<char>, Seq<char>)| f.1,
        ));
    }
    assert(sv.take(i as int) =~= sv);
    assert(string_views(args@) == install_args(sv.map_values(|f: (Seq<char>, Seq<char>)| f.1)));
    Ok(args)
}

pub open spec fn success_word() -> Seq<u32> {
    seq![0x73, 0x75, 0x63, 0x63, 0x65, 0x73, 0x73]
}

pub open spec fn success_at(out: Seq<char>, i: int) -> bool {
    forall|k: int| 0 <= k < 7 ==> ascii_ci(#[trigger] out[i + k], success_word()[k])
}

/// The text holds `success` in any mix of cases.
pub open spec fn mentions_success(out: Seq<char>) -> bool {
    exists|i: int| 0 <= i && i + 7 <= out.len() && #[trigger] success_at(out, i)
}

fn success_code(k: usize) -> (r: u32)
    requires
        k < 7,
    ensures
        r == success_word()[k as int],
        r >= 32,
{
    if k == 0 || k == 5 || k == 6 {
        0x73
    } else if k == 1 {
        0x75
    } else if k == 4 {
        0x65
    } else {
        0x63
    }
}

/// Whether `out` holds `success` in any mix of cases.
pub fn has_success(out: &Vec<char>) -> (r: bool)
    ensures
        r == mentions_success(out@),
{
    if out.len() < 7 {
        return false;
    }
    let mut i: usize = 0;
    while i <= out.len() - 7
        invariant
            out@.len() >= 7,
            i <= out@.len() - 6,
            forall|j: int| 0 <= j < i ==> !#[trigger] success_at(out@, j),
        decreases out@.len() - i,
    {
        let mut k: usize = 0;
        while k < 7 && is_ci(out[i + k], success_code(k))
            invariant
                i + 7 <= out@.len(),
                out@.len() <= usize::MAX,
                k <= 7,
                forall|m: int| 0 <= m < k ==> ascii_ci(#[trigger] out@[i + m], success_word()[m]),
            decreases 7 - k,
        {
            k = k + 1;
        }
        if k == 7 {
            assert(success_at(out@, i as int));
            return true;
        }
        assert(!ascii_ci(out@[i + k], success_word()[k as int]));
        assert(!success_at(out@, i as int));
        i = i + 1;
    }
    assert forall|j: int| 0 <= j && j + 7 <= out@.len() implies !#[trigger] success_at(out@, j) by {
    }
    false
}

pub open spec fn restored_message(count: nat, dir: Seq<char>, out: Seq<char>) -> Seq<char> {
    "Restored "@ + decimal(count) + " APK(s) from "@ + dir + "\n"@ + out
}

pub open spec fn install_failed_message(out: Seq<char>) -> Seq<char> {
    "Install failed: "@ + out
}

/// Judges the answer to an install: it failed unless adb exited with success
/// and its output mentions `success` in some case.
pub fn restore_outcome(exit_ok: bool, out: &str, count: u64, dir: &str) -> (r: Result<String, String>)
    ensures
        r is Ok <==> exit_ok && mentions_success(out@),
        match r {
            Ok(m) => m@ == restored_message(count as nat, dir@, out@),
            Err(e) => e@ == install_failed_message(out@),
        },
{
    let cs = chars_of(out);
    if !exit_ok || !has_success(&cs) {
        let mut e = String::from_str("Install failed: ");
        e.append(out);
        return Err(e);
    }
    let mut digits: Vec<char> = Vec::new();
    push_decimal(count, &mut digits);
    assert(digits@ =~= decimal(count as nat));
    let n = string_of(digits.as_slice());
    let mut m = String::from_str("Restored ");
    m.append(n.as_str());
    m.append(" APK(s) from ");
    m.append(dir);
    m.append("\n");
    m.append(out);
    Ok(m)
}

} // verus!
