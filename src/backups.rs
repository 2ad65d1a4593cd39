//! The backups folder: one directory `<package>-<unix seconds>` per backup.
use vstd::prelude::*;
use crate::text::{
    last_index_in, last_index_of,
    all_digits, digit_char, digit_value, chars_eq, chars_lt, chars_of, decimal, digits_value, is_digit, sign_stripped, lemma_seq_lt_irreflexive, lemma_seq_lt_total,
    lemma_seq_lt_transitive, parse_u64, parse_u64_in, push_decimal, seq_lt, string_of,
};

verus! {

/// One entry of the backups folder as listed from disk.
pub struct DirItem {
    pub name: String,
    pub path: String,
    pub is_dir: bool,
}

impl View for DirItem {
    type V = (Seq<char>, Seq<char>, bool);

    open spec fn view(&self) -> (Seq<char>, Seq<char>, bool) {
        (self.name@, self.path@, self.is_dir)
    }
}

/// The newest backup of one package.
pub struct BackupEntry {
    pub package: String,
    pub dir: String,
    pub timestamp: u64,
}

impl View for BackupEntry {
    type V = (Seq<char>, Seq<char>, u64);

    open spec fn view(&self) -> (Seq<char>, Seq<char>, u64) {
        (self.package@, self.dir@, self.timestamp)
    }
}

pub open spec fn item_views(v: Seq<DirItem>) -> Seq<(Seq<char>, Seq<char>, bool)> {
    v.map_values(|d: DirItem| d@)
}

pub open spec fn entry_views(v: Seq<BackupEntry>) -> Seq<(Seq<char>, Seq<char>, u64)> {
    v.map_values(|e: BackupEntry| e@)
}

/// The directory name of a backup of `package` taken at `timestamp`.
pub open spec fn backup_name(package: Seq<char>, timestamp: u64) -> Seq<char> {
    package + seq!['-'] + decimal(timestamp as nat)
}

/// A directory name read back: split at its last `-`; a timestamp that does not
/// parse counts as 0. A name without `-` is no backup.
pub open spec fn split_backup_name(name: Seq<char>) -> Option<(Seq<char>, u64)> {
    let i = last_index_of(name, '-');
    if i < 0 {
        None
    } else {
        Some(
            (
                name.take(i),
                match parse_u64(name.skip(i + 1)) {
                    Some(t) => t,
                    None => 0,
                },
            ),
        )
    }
}

pub fn backup_dir_name(package: &str, timestamp: u64) -> (r: String)
    ensures
        r@ == backup_name(package@, timestamp),
{
    let mut cs = chars_of(package);
    cs.push('-');
    push_decimal(timestamp, &mut cs);
    string_of(cs.as_slice())
}

fn chars_range(cs: &Vec<char>, from: usize, to: usize) -> (r: Vec<char>)
    requires
        from <= to <= cs@.len(),
    ensures
        r@ == cs@.subrange(from as int, to as int),
{
    let mut out: Vec<char> = Vec::new();
    let mut i = from;
    while i < to
        invariant
            from <= i <= to <= cs@.len(),
            out@ == cs@.subrange(from as int, i as int),
        decreases to - i,
    {
        out.push(cs[i]);
        i = i + 1;
        assert(out@ =~= cs@.subrange(from as int, i as int));
    }
    out
}

/// Reads a backup directory name back into its package and timestamp.
pub fn parse_backup_name(name: &str) -> (r: Option<(String, u64)>)
    ensures
        match r {
            Some((p, t)) => split_backup_name(name@) == Some((p@, t)),
            None => split_backup_name(name@) is None,
        },
{
    let cs = chars_of(name);
    match last_index_in(&cs, '-') {
        None => None,
        Some(i) => {
            let ts = match parse_u64_in(&cs, i + 1, cs.len()) {
                Some(t) => t,
                None => 0,
            };
            assert(cs@.skip(i + 1) =~= cs@.subrange(i + 1, cs@.len() as int));
            let p = chars_range(&cs, 0, i);
            assert(p@ =~= cs@.take(i as int));
            Some((string_of(p.as_slice()), ts))
        },
    }
}

/// What one listed item contributes: a directory whose name splits gives
/// `(package, path, timestamp)`; anything else gives nothing.
pub open spec fn entry_of_item(it: (Seq<char>, Seq<char>, bool)) -> Option<(Seq<char>, Seq<char>, u64)> {
    if !it.2 {
        None
    } else {
        match split_backup_name(it.0) {
            Some((p, t)) => Some((p, it.1, t)),
            None => None,
        }
    }
}

/// The newest backup per package over the items in listing order: a later
/// timestamp replaces the one held, an equal one does not.
pub open spec fn latest_map(items: Seq<(Seq<char>, Seq<char>, bool)>) -> Map<Seq<char>, (Seq<char>, u64)>
    decreases items.len(),
{
    if items.len() == 0 {
        Map::empty()
    } else {
        let m = latest_map(items.drop_last());
        match entry_of_item(items.last()) {
            None => m,
            Some((p, d, t)) => if m.contains_key(p) && t <= m[p].1 {
                m
            } else {
                m.insert(p, (d, t))
            },
        }
    }
}

/// Entries in strictly ascending package order.
pub open spec fn sorted_by_package(v: Seq<(Seq<char>, Seq<char>, u64)>) -> bool {
    forall|i: int, j: int| 0 <= i < j < v.len() ==> seq_lt(#[trigger] v[i].0, #[trigger] v[j].0)
}

/// `v` lists the map `m` by ascending key, one entry per key.
pub open spec fn lists_map(v: Seq<(Seq<char>, Seq<char>, u64)>, m: Map<Seq<char>, (Seq<char>, u64)>) -> bool {
    &&& sorted_by_package(v)
    &&& forall|i: int|
        0 <= i < v.len() ==> #[trigger] m.contains_key(v[i].0) && m[v[i].0] == (v[i].1, v[i].2)
    &&& forall|k: Seq<char>| #[trigger] m.contains_key(k) ==> exists|i: int| 0 <= i < v.len() && v[i].0 == k
}

proof fn lemma_lists_insert(
    v: Seq<(Seq<char>, Seq<char>, u64)>,
    m: Map<Seq<char>, (Seq<char>, u64)>,
    p: int,
    e: (Seq<char>, Seq<char>, u64),
)
    requires
        lists_map(v, m),
        0 <= p <= v.len(),
        forall|j: int| 0 <= j < p ==> seq_lt(#[trigger] v[j].0, e.0),
        p < v.len() ==> seq_lt(e.0, v[p].0),
    ensures
        !m.contains_key(e.0),
        lists_map(v.insert(p, e), m.insert(e.0, (e.1, e.2))),
{
    let w = v.insert(p, e);
    let m2 = m.insert(e.0, (e.1, e.2));
    v.insert_ensures(p, e);
    assert forall|j: int| p <= j < v.len() implies seq_lt(e.0, #[trigger] v[j].0) by {
        if j > p {
            lemma_seq_lt_transitive(e.0, v[p].0, v[j].0);
        }
    }
    assert forall|j: int| 0 <= j < v.len() implies #[trigger] v[j].0 != e.0 by {
        if j < p {
            lemma_seq_lt_irreflexive(e.0);
        } else {
            lemma_seq_lt_irreflexive(e.0);
        }
    }
    if m.contains_key(e.0) {
        let j = choose|j: int| 0 <= j < v.len() && v[j].0 == e.0;
        assert(v[j].0 != e.0);
    }
    assert forall|i: int, j: int| 0 <= i < j < w.len() implies seq_lt(#[trigger] w[i].0, #[trigger] w[j].0) by {
        if i < p && j < p {
        } else if i < p && j == p {
        } else if i < p {
            assert(w[j] == v[j - 1]);
            assert(seq_lt(v[i].0, v[j - 1].0));
        } else if i == p {
            assert(w[j] == v[j - 1]);
        } else {
            assert(w[i] == v[i - 1]);
            assert(w[j] == v[j - 1]);
        }
    }
    assert forall|i: int| 0 <= i < w.len() implies #[trigger] m2.contains_key(w[i].0) && m2[w[i].0] == (
        w[i].1,
        w[i].2,
    ) by {
        if i < p {
            assert(v[i].0 != e.0);
        } else if i > p {
            assert(w[i] == v[i - 1]);
            assert(v[i - 1].0 != e.0);
        }
    }
    assert forall|k: Seq<char>| #[trigger] m2.contains_key(k) implies exists|i: int|
        0 <= i < w.len() && w[i].0 == k by {
        if k == e.0 {
            assert(w[p].0 == k);
        } else {
            assert(m.contains_key(k));
            let j = choose|j: int| 0 <= j < v.len() && v[j].0 == k;
            if j < p {
                assert(w[j].0 == k);
            } else {
                assert(w[j + 1] == v[j]);
                assert(w[j + 1].0 == k);
            }
        }
    }
}

proof fn lemma_lists_replace(
    v: Seq<(Seq<char>, Seq<char>, u64)>,
    m: Map<Seq<char>, (Seq<char>, u64)>,
    p: int,
    e: (Seq<char>, Seq<char>, u64),
)
    requires
        lists_map(v, m),
        0 <= p < v.len(),
        v[p].0 == e.0,
    ensures
        lists_map(v.update(p, e), m.insert(e.0, (e.1, e.2))),
{
    let w = v.update(p, e);
    let m2 = m.insert(e.0, (e.1, e.2));
    assert forall|i: int, j: int| 0 <= i < j < w.len() implies seq_lt(#[trigger] w[i].0, #[trigger] w[j].0) by {
        assert(seq_lt(v[i].0, v[j].0));
    }
    assert forall|i: int| 0 <= i < w.len() implies #[trigger] m2.contains_key(w[i].0) && m2[w[i].0] == (
        w[i].1,
        w[i].2,
    ) by {
        if i != p && v[i].0 == e.0 {
            if i < p {
                assert(seq_lt(v[i].0, v[p].0));
            } else {
                assert(seq_lt(v[p].0, v[i].0));
            }
            lemma_seq_lt_irreflexive(e.0);
        }
    }
    assert forall|k: Seq<char>| #[trigger] m2.contains_key(k) implies exists|i: int|
        0 <= i < w.len() && w[i].0 == k by {
        if k == e.0 {
            assert(w[p].0 == k);
        } else {
            assert(m.contains_key(k));
            let j = choose|j: int| 0 <= j < v.len() && v[j].0 == k;
            assert(w[j].0 == k);
        }
    }
}

/// The newest backup of each package among the listed items, in ascending
/// package order.
pub fn latest_backups(items: &Vec<DirItem>) -> (r: Vec<BackupEntry>)
    ensures
        lists_map(entry_views(r@), latest_map(item_views(items@))),
{
    let ghost iv = item_views(items@);
    let mut res: Vec<BackupEntry> = Vec::new();
    let mut keys: Vec<Vec<char>> = Vec::new();
    let mut i: usize = 0;
    assert(iv.take(0) =~= seq![]);
    assert(latest_map(iv.take(0)) =~= Map::empty());
    assert(entry_views(res@) =~= seq![]);
    while i < items.len()
        invariant
            iv == item_views(items@),
            i <= items@.len(),
            keys@.len() == res@.len(),
            forall|j: int| 0 <= j < keys@.len() ==> (#[trigger] keys@[j])@ == res@[j].package@,
            lists_map(entry_views(res@), latest_map(iv.take(i as int))),
        decreases items@.len() - i,
    {
        let item = &items[i];
        let ghost ev = entry_views(res@);
        let ghost m = latest_map(iv.take(i as int));
        assert(iv.take(i + 1).drop_last() =~= iv.take(i as int));
        assert(iv.take(i + 1).last() == item@);
        let ghost m2 = latest_map(iv.take(i + 1));
        if item.is_dir {
            match parse_backup_name(item.name.as_str()) {
                None => {
                    assert(m2 == m);
                },
                Some((package, ts)) => {
                    assert(entry_of_item(item@) == Some((package@, item.path@, ts)));
                    let pkg = chars_of(package.as_str());
                    let mut p: usize = 0;
                    while p < keys.len() && chars_lt(&keys[p], &pkg)
                        invariant
                            p <= keys@.len(),
                            keys@.len() == res@.len(),
                            ev == entry_views(res@),
                            forall|j: int| 0 <= j < keys@.len() ==> (#[trigger] keys@[j])@ == res@[j].package@,
                            forall|j: int| 0 <= j < p ==> seq_lt(#[trigger] ev[j].0, pkg@),
                        decreases keys@.len() - p,
                    {
                        assert(ev[p as int].0 == keys@[p as int]@);
                        p = p + 1;
                    }
                    let e = BackupEntry { package, dir: item.path.clone(), timestamp: ts };
                    if p < keys.len() && chars_eq(&keys[p], &pkg) {
                        assert(ev[p as int].0 == pkg@);
                        assert(ev[p as int] == res@[p as int]@);
                        assert(m.contains_key(ev[p as int].0));
                        assert(m.contains_key(pkg@) && m[pkg@].1 == res@[p as int].timestamp);
                        if ts > res[p].timestamp {
                            assert(m2 == m.insert(pkg@, (item.path@, ts)));
                            res[p] = e;
                            proof {
                                lemma_lists_replace(ev, m, p as int, e@);
                                assert(entry_views(res@) =~= ev.update(p as int, e@));
                            }
                        } else {
                            assert(m2 == m);
                        }
                    } else {
                        proof {
                            if p < keys@.len() {
                                assert(ev[p as int].0 == keys@[p as int]@);
                                lemma_seq_lt_total(ev[p as int].0, pkg@);
                            }
                            lemma_lists_insert(ev, m, p as int, e@);
                            assert(m2 == m.insert(pkg@, (item.path@, ts)));
                        }
                        let ghost old_keys = keys@;
                        let ghost old_res = res@;
                        res.insert(p, e);
                        keys.insert(p, pkg);
                        assert(entry_views(res@) =~= ev.insert(p as int, e@));
                        assert forall|j: int| 0 <= j < keys@.len() implies (#[trigger] keys@[j])@
                            == res@[j].package@ by {
                            if j > p {
                                assert(keys@[j] == old_keys[j - 1]);
                                assert(res@[j] == old_res[j - 1]);
                            } else if j < p {
                                assert(keys@[j] == old_keys[j]);
                                assert(res@[j] == old_res[j]);
                            }
                        }
                    }
                },
            }
        } else {
            assert(m2 == m);
        }
        i = i + 1;
    }
    assert(iv.take(i as int) =~= iv);
    res
}

proof fn lemma_last_index_no_tail(x: Seq<char>, t: Seq<char>, c: char)
    requires
        forall|k: int| 0 <= k < t.len() ==> #[trigger] t[k] != c,
    ensures
        last_index_of(x + t, c) == last_index_of(x, c),
    decreases t.len(),
{
    if t.len() > 0 {
        assert((x + t).drop_last() =~= x + t.drop_last());
        assert((x + t).last() == t.last());
        lemma_last_index_no_tail(x, t.drop_last(), c);
    } else {
        assert(x + t =~= x);
    }
}

proof fn lemma_digit_char(d: nat)
    requires
        d < 10,
    ensures
        is_digit(digit_char(d)),
        digit_value(digit_char(d)) == d,
{
}

proof fn lemma_decimal_digits(n: nat)
    ensures
        decimal(n).len() > 0,
        all_digits(decimal(n)),
        digits_value(decimal(n)) == n,
    decreases n,
{
    lemma_digit_char(n % 10);
    if n >= 10 {
        lemma_decimal_digits(n / 10);
        assert(n == (n / 10) * 10 + n % 10);
        let d = decimal(n);
        assert(d.drop_last() =~= decimal(n / 10));
        assert(d.last() == digit_char(n % 10));
        assert(digits_value(d) == digits_value(d.drop_last()) * 10 + digit_value(d.last()));
        assert forall|k: int| 0 <= k < d.len() implies is_digit(#[trigger] d[k]) by {
            if k < d.len() - 1 {
                assert(d[k] == decimal(n / 10)[k]);
            }
        }
    } else {
        let d = decimal(n);
        assert(d.drop_last() =~= seq![]);
        assert(digits_value(d) == digits_value(d.drop_last()) * 10 + digit_value(d.last()));
    }
}

/// A backup directory name reads back as the package and timestamp it was made
/// from, whatever the package name holds, dashes and digits included.
pub proof fn lemma_backup_name_round_trip(package: Seq<char>, timestamp: u64)
    ensures
        split_backup_name(backup_name(package, timestamp)) == Some((package, timestamp)),
{
    let d = decimal(timestamp as nat);
    let name = backup_name(package, timestamp);
    lemma_decimal_digits(timestamp as nat);
    assert forall|k: int| 0 <= k < d.len() implies #[trigger] d[k] != '-' by {
        assert(is_digit(d[k]));
    }
    lemma_last_index_no_tail(package.push('-'), d, '-');
    assert(name =~= package.push('-') + d);
    assert(package.push('-').last() == '-');
    let i = package.len() as int;
    assert(name.take(i) =~= package);
    assert(name.skip(i + 1) =~= d);
    assert(d[0] != '+') by {
        assert(is_digit(d[0]));
    }
    assert(sign_stripped(d) == d);
}

} // verus!
