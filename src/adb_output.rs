//! Readers for the line-oriented text that adb prints.
use vstd::prelude::*;
use crate::text::{
    is_ws, join_lines, lemma_lines_of_join, no_break, trim_end, trim_start,
    chars_of, find_char, find_in, lemma_find_char, lemma_find_char_bounds, line_spans, lines_of, string_views, substring, trim,
    trim_bounds,
};

verus! {

/// One line of `adb devices`: the serial and the state that follows the tab.
pub struct DeviceInfo {
    pub id: String,
    pub status: String,
}

impl View for DeviceInfo {
    type V = (Seq<char>, Seq<char>);

    open spec fn view(&self) -> (Seq<char>, Seq<char>) {
        (self.id@, self.status@)
    }
}

pub open spec fn device_views(v: Seq<DeviceInfo>) -> Seq<(Seq<char>, Seq<char>)> {
    v.map_values(|d: DeviceInfo| d@)
}

/// A data line of `adb devices`: blank lines and lines without a tab give nothing;
/// otherwise the text before the first tab and the text after it.
pub open spec fn device_of_line(l: Seq<char>) -> Option<(Seq<char>, Seq<char>)> {
    let t = find_char(l, '\t');
    if trim(l).len() == 0 || t >= l.len() {
        None
    } else {
        Some((l.take(t), l.skip(t + 1)))
    }
}

pub open spec fn devices_from(ls: Seq<Seq<char>>) -> Seq<(Seq<char>, Seq<char>)>
    decreases ls.len(),
{
    if ls.len() == 0 {
        seq![]
    } else {
        let r = devices_from(ls.drop_last());
        match device_of_line(ls.last()) {
            Some(d) => r.push(d),
            None => r,
        }
    }
}

/// The devices listed in the output of `adb devices`; its first line is a header.
pub open spec fn devices_of(out: Seq<char>) -> Seq<(Seq<char>, Seq<char>)> {
    let ls = lines_of(out);
    if ls.len() == 0 {
        seq![]
    } else {
        devices_from(ls.skip(1))
    }
}

/// The trimmed text after the first `:` of a line, if the line has a `:`.
pub open spec fn after_colon(l: Seq<char>) -> Option<Seq<char>> {
    let c = find_char(l, ':');
    if c >= l.len() {
        None
    } else {
        Some(trim(l.skip(c + 1)))
    }
}

pub open spec fn packages_from(ls: Seq<Seq<char>>) -> Seq<Seq<char>>
    decreases ls.len(),
{
    if ls.len() == 0 {
        seq![]
    } else {
        let r = packages_from(ls.drop_last());
        match after_colon(ls.last()) {
            Some(p) => r.push(p),
            None => r,
        }
    }
}

/// The package names in the output of `pm list packages`.
pub open spec fn packages_of(out: Seq<char>) -> Seq<Seq<char>> {
    packages_from(lines_of(out))
}

pub open spec fn apk_paths_from(ls: Seq<Seq<char>>) -> Seq<Seq<char>>
    decreases ls.len(),
{
    if ls.len() == 0 {
        seq![]
    } else {
        let r = apk_paths_from(ls.drop_last());
        match after_colon(ls.last()) {
            Some(p) => if p.len() > 0 {
                r.push(p)
            } else {
                r
            },
            None => r,
        }
    }
}

/// The APK paths in the output of `pm path <package>`; empty ones are dropped.
pub open spec fn apk_paths_of(out: Seq<char>) -> Seq<Seq<char>> {
    apk_paths_from(lines_of(out))
}

/// The trimmed span after the first `:` of `cs[a..b]`, if it holds one.
fn after_colon_span(cs: &Vec<char>, a: usize, b: usize) -> (r: Option<(usize, usize)>)
    requires
        a <= b <= cs@.len(),
    ensures
        match r {
            Some((x, y)) => x <= y <= b && after_colon(cs@.subrange(a as int, b as int)) == Some(
                cs@.subrange(x as int, y as int),
            ),
            None => after_colon(cs@.subrange(a as int, b as int)) is None,
        },
{
    let ghost l = cs@.subrange(a as int, b as int);
    let c = find_in(cs, a, b, ':');
    if c == b {
        None
    } else {
        let (x, y) = trim_bounds(cs, c + 1, b);
        assert(l.skip(c - a + 1) =~= cs@.subrange(c + 1, b as int));
        Some((x, y))
    }
}

/// Reads the output of `adb devices`: the header line is skipped whatever it holds.
pub fn parse_devices(out: &str) -> (r: Vec<DeviceInfo>)
    ensures
        device_views(r@) == devices_of(out@),
{
    let cs = chars_of(out);
    let spans = line_spans(&cs);
    let ghost ls = lines_of(out@);
    let mut devices: Vec<DeviceInfo> = Vec::new();
    if spans.len() == 0 {
        assert(device_views(devices@) =~= seq![]);
        return devices;
    }
    let ghost data = ls.skip(1);
    let mut i: usize = 1;
    assert(data.take(0) =~= seq![]);
    while i < spans.len()
        invariant
            cs@ == out@,
            ls == lines_of(out@),
            data == ls.skip(1),
            spans@.len() == ls.len(),
            1 <= i <= spans@.len(),
            forall|k: int| 0 <= k < spans@.len() ==> #[trigger] spans@[k].0 <= spans@[k].1 <= cs@.len(),
            forall|k: int|
                0 <= k < spans@.len() ==> #[trigger] ls[k] == cs@.subrange(
                    spans@[k].0 as int,
                    spans@[k].1 as int,
                ),
            device_views(devices@) == devices_from(data.take(i - 1)),
        decreases spans@.len() - i,
    {
        let (a, b) = spans[i];
        let ghost l = ls[i as int];
        assert(data.take(i as int).drop_last() =~= data.take(i - 1));
        assert(data.take(i as int).last() == l);
        let (ta, tb) = trim_bounds(&cs, a, b);
        let t = find_in(&cs, a, b, '\t');
        if ta < tb && t < b {
            assert(l.take(t - a) =~= cs@.subrange(a as int, t as int));
            assert(l.skip(t - a + 1) =~= cs@.subrange(t + 1, b as int));
            let d = DeviceInfo { id: substring(&cs, a, t), status: substring(&cs, t + 1, b) };
            devices.push(d);
            assert(device_views(devices@) =~= devices_from(data.take(i - 1)).push(d@));
        }
        i = i + 1;
    }
    assert(data.take(i - 1) =~= data);
    devices
}

/// Reads the output of `pm list packages`: each line with a `:` gives the trimmed text after it.
pub fn parse_packages(out: &str) -> (r: Vec<String>)
    ensures
        string_views(r@) == packages_of(out@),
{
    let cs = chars_of(out);
    let spans = line_spans(&cs);
    let ghost ls = lines_of(out@);
    let mut names: Vec<String> = Vec::new();
    let mut i: usize = 0;
    assert(ls.take(0) =~= seq![]);
    assert(string_views(names@) =~= seq![]);
    while i < spans.len()
        invariant
            cs@ == out@,
            ls == lines_of(out@),
            spans@.len() == ls.len(),
            0 <= i <= spans@.len(),
            forall|k: int| 0 <= k < spans@.len() ==> #[trigger] spans@[k].0 <= spans@[k].1 <= cs@.len(),
            forall|k: int|
                0 <= k < spans@.len() ==> #[trigger] ls[k] == cs@.subrange(
                    spans@[k].0 as int,
                    spans@[k].1 as int,
                ),
            string_views(names@) == packages_from(ls.take(i as int)),
        decreases spans@.len() - i,
    {
        let (a, b) = spans[i];
        assert(ls.take(i + 1).drop_last() =~= ls.take(i as int));
        assert(ls.take(i + 1).last() == ls[i as int]);
        match after_colon_span(&cs, a, b) {
            Some((x, y)) => {
                let name = substring(&cs, x, y);
                names.push(name);
                assert(string_views(names@) =~= packages_from(ls.take(i as int)).push(name@));
            },
            None => {},
        }
        i = i + 1;
    }
    assert(ls.take(i as int) =~= ls);
    names
}

/// Reads the output of `pm path <package>`: the non-empty trimmed paths after each `:`.
/// With none, the error names the package.
pub fn parse_apk_paths(package: &str, out: &str) -> (r: Result<Vec<String>, String>)
    ensures
        match r {
            Ok(v) => apk_paths_of(out@).len() > 0 && string_views(v@) == apk_paths_of(out@),
            Err(e) => apk_paths_of(out@).len() == 0 && e@ == no_apk_paths_message(package@),
        },
{
    let cs = chars_of(out);
    let spans = line_spans(&cs);
    let ghost ls = lines_of(out@);
    let mut paths: Vec<String> = Vec::new();
    let mut i: usize = 0;
    assert(ls.take(0) =~= seq![]);
    assert(string_views(paths@) =~= seq![]);
    while i < spans.len()
        invariant
            cs@ == out@,
            ls == lines_of(out@),
            spans@.len() == ls.len(),
            0 <= i <= spans@.len(),
            forall|k: int| 0 <= k < spans@.len() ==> #[trigger] spans@[k].0 <= spans@[k].1 <= cs@.len(),
            forall|k: int|
                0 <= k < spans@.len() ==> #[trigger] ls[k] == cs@.subrange(
                    spans@[k].0 as int,
                    spans@[k].1 as int,
                ),
            string_views(paths@) == apk_paths_from(ls.take(i as int)),
        decreases spans@.len() - i,
    {
        let (a, b) = spans[i];
        assert(ls.take(i + 1).drop_last() =~= ls.take(i as int));
        assert(ls.take(i + 1).last() == ls[i as int]);
        match after_colon_span(&cs, a, b) {
            Some((x, y)) => {
                if x < y {
                    let p = substring(&cs, x, y);
                    paths.push(p);
                    assert(string_views(paths@) =~= apk_paths_from(ls.take(i as int)).push(p@));
                }
            },
            None => {},
        }
        i = i + 1;
    }
    assert(ls.take(i as int) =~= ls);
    if paths.len() == 0 {
        Err(no_apk_paths_error(package))
    } else {
        Ok(paths)
    }
}

pub open spec fn no_apk_paths_message(package: Seq<char>) -> Seq<char> {
    "No APK paths found for "@ + package
}

fn no_apk_paths_error(package: &str) -> (r: String)
    ensures
        r@ == no_apk_paths_message(package@),
{
    let mut m = String::from_str("No APK paths found for ");
    m.append(package);
    m
}

proof fn lemma_devices_from_all(ls: Seq<Seq<char>>)
    requires
        forall|i: int| 0 <= i < ls.len() ==> (#[trigger] device_of_line(ls[i])) is Some,
    ensures
        devices_from(ls).len() == ls.len(),
        forall|i: int| 0 <= i < ls.len() ==> #[trigger] devices_from(ls)[i] == device_of_line(ls[i])->0,
    decreases ls.len(),
{
    if ls.len() > 0 {
        let p = ls.drop_last();
        assert forall|i: int| 0 <= i < p.len() implies (#[trigger] device_of_line(p[i])) is Some by {
            assert(p[i] == ls[i]);
        }
        lemma_devices_from_all(p);
        assert(device_of_line(ls[ls.len() - 1]) is Some);
        assert forall|i: int| 0 <= i < ls.len() implies #[trigger] devices_from(ls)[i] == device_of_line(
            ls[i],
        )->0 by {
            if i < p.len() {
                assert(p[i] == ls[i]);
                assert(devices_from(p)[i] == device_of_line(p[i])->0);
            }
        }
    }
}

/// Device output with a header line followed by N data lines, each holding a tab
/// and not blank, yields exactly N devices; the header never becomes a device.
pub proof fn lemma_device_count(out: Seq<char>)
    requires
        lines_of(out).len() >= 1,
        forall|i: int|
            1 <= i < lines_of(out).len() ==> (#[trigger] lines_of(out)[i]).contains('\t') && trim(
                lines_of(out)[i],
            ).len() > 0,
    ensures
        devices_of(out).len() == lines_of(out).len() - 1,
{
    let ls = lines_of(out);
    let data = ls.skip(1);
    assert forall|i: int| 0 <= i < data.len() implies (#[trigger] device_of_line(data[i])) is Some by {
        let l = data[i];
        assert(l == ls[i + 1]);
        lemma_find_char_bounds(l, '\t');
        let k = choose|k: int| 0 <= k < l.len() && l[k] == '\t';
        assert(find_char(l, '\t') < l.len());
    }
    lemma_devices_from_all(data);
}

/// Two device outputs that differ only in their first line list the same devices.
pub proof fn lemma_device_header_ignored(a: Seq<char>, b: Seq<char>)
    requires
        lines_of(a).len() >= 1,
        lines_of(a).skip(1) == lines_of(b).skip(1),
        lines_of(b).len() >= 1,
    ensures
        devices_of(a) == devices_of(b),
{
}

pub open spec fn package_prefix() -> Seq<char> {
    seq!['p', 'a', 'c', 'k', 'a', 'g', 'e', ':']
}

proof fn lemma_packages_from_prefixed(ls: Seq<Seq<char>>)
    requires
        forall|i: int|
            0 <= i < ls.len() ==> (#[trigger] ls[i]).len() >= 8 && ls[i].take(8) == package_prefix(),
    ensures
        packages_from(ls).len() == ls.len(),
        forall|i: int| 0 <= i < ls.len() ==> #[trigger] packages_from(ls)[i] == trim(ls[i].skip(8)),
    decreases ls.len(),
{
    if ls.len() > 0 {
        let p = ls.drop_last();
        assert forall|i: int| 0 <= i < p.len() implies (#[trigger] p[i]).len() >= 8 && p[i].take(8)
            == package_prefix() by {
            assert(p[i] == ls[i]);
        }
        lemma_packages_from_prefixed(p);
        let l = ls.last();
        assert(l.take(8) == package_prefix());
        assert forall|k: int| 0 <= k < 7 implies #[trigger] l[k] != ':' by {
            assert(l[k] == l.take(8)[k]);
        }
        assert(l[7] == l.take(8)[7]);
        lemma_find_char(l, ':', 7);
        assert forall|i: int| 0 <= i < ls.len() implies #[trigger] packages_from(ls)[i] == trim(
            ls[i].skip(8),
        ) by {
            if i < p.len() {
                assert(packages_from(p)[i] == trim(p[i].skip(8)));
            }
        }
    }
}

/// When every line reads `package:<name>`, one name comes out per line, and each is
/// the text after the colon, trimmed.
pub proof fn lemma_package_names(out: Seq<char>)
    requires
        forall|i: int|
            0 <= i < lines_of(out).len() ==> (#[trigger] lines_of(out)[i]).len() >= 8 && lines_of(
                out,
            )[i].take(8) == package_prefix(),
    ensures
        packages_of(out).len() == lines_of(out).len(),
        forall|i: int|
            0 <= i < lines_of(out).len() ==> #[trigger] packages_of(out)[i] == trim(
                lines_of(out)[i].skip(8),
            ),
{
    lemma_packages_from_prefixed(lines_of(out));
}

proof fn lemma_trim_start_suffix(s: Seq<char>) -> (d: int)
    ensures
        0 <= d <= s.len(),
        trim_start(s) == s.skip(d),
        forall|k: int| 0 <= k < d ==> is_ws(#[trigger] s[k]),
    decreases s.len(),
{
    if s.len() > 0 && is_ws(s[0]) {
        let t = s.drop_first();
        let d1 = lemma_trim_start_suffix(t);
        assert(t.skip(d1) =~= s.skip(d1 + 1));
        assert forall|k: int| 0 <= k < d1 + 1 implies is_ws(#[trigger] s[k]) by {
            if k > 0 {
                assert(s[k] == t[k - 1]);
            }
        }
        d1 + 1
    } else {
        assert(s.skip(0) =~= s);
        0
    }
}

proof fn lemma_trim_end_not_empty(u: Seq<char>, j: int)
    requires
        0 <= j < u.len(),
        !is_ws(u[j]),
    ensures
        trim_end(u).len() > 0,
    decreases u.len(),
{
    if is_ws(u.last()) {
        assert(u.drop_last()[j] == u[j]);
        lemma_trim_end_not_empty(u.drop_last(), j);
    }
}

/// The text has a character that is not whitespace.
pub open spec fn not_blank(s: Seq<char>) -> bool {
    exists|k: int| 0 <= k < s.len() && !is_ws(#[trigger] s[k])
}

proof fn lemma_trim_not_blank(s: Seq<char>)
    requires
        not_blank(s),
    ensures
        trim(s).len() > 0,
{
    let k = choose|k: int| 0 <= k < s.len() && !is_ws(#[trigger] s[k]);
    let d = lemma_trim_start_suffix(s);
    assert(k >= d);
    assert(trim_start(s)[k - d] == s[k]);
    lemma_trim_end_not_empty(trim_start(s), k - d);
}

/// A device line: the serial, a tab, the state.
pub open spec fn device_line(id: Seq<char>, status: Seq<char>) -> Seq<char> {
    id + seq!['\t'] + status
}

/// For `adb devices` output made of a header line and N lines `id<TAB>status`,
/// with every id not blank and free of tabs and no line break inside any part,
/// exactly N devices are read, the i-th being `(id_i, status_i)`; the header,
/// whatever it holds, gives none.
pub proof fn lemma_devices_of_text(header: Seq<char>, ids: Seq<Seq<char>>, statuses: Seq<Seq<char>>)
    requires
        ids.len() == statuses.len(),
        no_break(header),
        forall|i: int|
            0 <= i < ids.len() ==> no_break(#[trigger] ids[i]) && no_break(statuses[i]) && !ids[i].contains(
                '\t',
            ) && not_blank(ids[i]),
    ensures
        devices_of(
            join_lines(
                seq![header] + Seq::new(ids.len(), |i: int| device_line(ids[i], statuses[i])),
            ),
        ) == Seq::new(ids.len(), |i: int| (ids[i], statuses[i])),
{
    let n = ids.len();
    let data = Seq::new(n, |i: int| device_line(ids[i], statuses[i]));
    let ls = seq![header] + data;
    let want = Seq::new(n, |i: int| (ids[i], statuses[i]));
    if n == 0 {
        assert(ls =~= seq![header]);
        if header.len() == 0 {
            assert(join_lines(ls) =~= seq![]);
            assert(devices_of(join_lines(ls)) =~= want);
        } else {
            lemma_lines_of_join(ls);
            assert(lines_of(join_lines(ls)).skip(1) =~= seq![]);
            assert(devices_of(join_lines(ls)) =~= want);
        }
    } else {
        assert forall|i: int| 0 <= i < n implies no_break(#[trigger] data[i]) by {
            let l = data[i];
            assert(no_break(ids[i]) && no_break(statuses[i]));
            assert forall|k: int| 0 <= k < l.len() implies #[trigger] l[k] != '\n' && l[k] != '\r' by {
                if k < ids[i].len() {
                    assert(l[k] == ids[i][k]);
                } else if k > ids[i].len() {
                    assert(l[k] == statuses[i][k - ids[i].len() - 1]);
                }
            }
        }
        assert forall|i: int| 0 <= i < ls.len() implies no_break(#[trigger] ls[i]) by {
            if i > 0 {
                assert(ls[i] == data[i - 1]);
            }
        }
        assert(ls.last() == data[n - 1]);
        lemma_lines_of_join(ls);
        assert(lines_of(join_lines(ls)).skip(1) =~= data);
        assert forall|i: int| 0 <= i < n implies (#[trigger] device_of_line(data[i])) == Some(
            (ids[i], statuses[i]),
        ) by {
            let id = ids[i];
            let l = data[i];
            assert forall|k: int| 0 <= k < id.len() implies #[trigger] l[k] != '\t' by {
                assert(l[k] == id[k]);
                if id[k] == '\t' {
                    assert(id.contains('\t'));
                }
            }
            lemma_find_char(l, '\t', id.len() as int);
            assert(not_blank(id));
            let k = choose|k: int| 0 <= k < id.len() && !is_ws(#[trigger] id[k]);
            assert(l[k] == id[k]);
            lemma_trim_not_blank(l);
            assert(l.take(id.len() as int) =~= id);
            assert(l.skip(id.len() as int + 1) =~= statuses[i]);
        }
        lemma_devices_from_all(data);
        assert(devices_of(join_lines(ls)) =~= want);
    }
}

/// For `pm list packages` output made of lines `package:<name_i>`, with no line
/// break inside any name, one name is read per line, in order, and it is
/// `name_i` trimmed; colons after the first stay in it.
pub proof fn lemma_packages_of_text(names: Seq<Seq<char>>)
    requires
        forall|i: int| 0 <= i < names.len() ==> no_break(#[trigger] names[i]),
    ensures
        packages_of(join_lines(Seq::new(names.len(), |i: int| package_prefix() + names[i])))
            == Seq::new(names.len(), |i: int| trim(names[i])),
{
    let n = names.len();
    let ls = Seq::new(n, |i: int| package_prefix() + names[i]);
    assert forall|i: int| 0 <= i < n implies no_break(#[trigger] ls[i]) by {
        let l = ls[i];
        assert(no_break(names[i]));
        assert forall|k: int| 0 <= k < l.len() implies #[trigger] l[k] != '\n' && l[k] != '\r' by {
            if k >= 8 {
                assert(l[k] == names[i][k - 8]);
            } else {
                assert(l[k] == package_prefix()[k]);
            }
        }
    }
    if n > 0 {
        assert(ls.last().len() >= 8);
    }
    lemma_lines_of_join(ls);
    let out = join_lines(ls);
    assert forall|i: int| 0 <= i < lines_of(out).len() implies (#[trigger] lines_of(out)[i]).len()
        >= 8 && lines_of(out)[i].take(8) == package_prefix() by {
        assert((package_prefix() + names[i]).take(8) =~= package_prefix());
    }
    lemma_package_names(out);
    assert forall|i: int| 0 <= i < n implies #[trigger] packages_of(out)[i] == trim(names[i]) by {
        assert((package_prefix() + names[i]).skip(8) =~= names[i]);
    }
    assert(packages_of(out) =~= Seq::new(n, |i: int| trim(names[i])));
}

} // verus!
