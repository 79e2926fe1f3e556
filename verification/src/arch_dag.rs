//! The layered crate-dependency policy of the server workspace, and the
//! manifest scans that check a member's declared dependencies against it.
//!
//! A manifest is scanned by hand (a section walk plus a key split); because
//! the policy only ever looks at dependency names that match a known
//! workspace crate, an imperfect reading of unrelated lines is harmless.
use vstd::prelude::*;
use vstd::string::StringExecFns;

use crate::session::push_char;

verus! {

/// Whether `c` is Unicode white space (`char::is_whitespace`).
pub open spec fn is_ws(c: char) -> bool {
    let u = c as u32;
    ||| 9 <= u <= 13
    ||| u == 32
    ||| u == 0x85
    ||| u == 0xA0
    ||| u == 0x1680
    ||| 0x2000 <= u <= 0x200A
    ||| u == 0x2028
    ||| u == 0x2029
    ||| u == 0x202F
    ||| u == 0x205F
    ||| u == 0x3000
}

fn is_ws_exec(c: char) -> (r: bool)
    ensures
        r == is_ws(c),
{
    let u = c as u32;
    (9 <= u && u <= 13) || u == 32 || u == 0x85 || u == 0xA0 || u == 0x1680 || (0x2000 <= u && u
        <= 0x200A) || u == 0x2028 || u == 0x2029 || u == 0x202F || u == 0x205F || u == 0x3000
}

/// `s` without its leading white space.
pub open spec fn trim_start(s: Seq<char>) -> Seq<char>
    decreases s.len(),
{
    if s.len() > 0 && is_ws(s[0]) {
        trim_start(s.drop_first())
    } else {
        s
    }
}

/// `s` without its trailing white space.
pub open spec fn trim_end(s: Seq<char>) -> Seq<char>
    decreases s.len(),
{
    if s.len() > 0 && is_ws(s.last()) {
        trim_end(s.drop_last())
    } else {
        s
    }
}

/// `s` without leading or trailing white space (`str::trim`).
pub open spec fn trim(s: Seq<char>) -> Seq<char> {
    trim_end(trim_start(s))
}

/// The first position of `c` in `s`.
pub open spec fn find_char(s: Seq<char>, c: char) -> Option<nat>
    decreases s.len(),
{
    if s.len() == 0 {
        None
    } else if s[0] == c {
        Some(0)
    } else {
        match find_char(s.drop_first(), c) {
            Some(i) => Some(i + 1),
            None => None,
        }
    }
}

/// The part of `s` before its first `c`, or all of `s` (`split(c).next()`).
pub open spec fn before_char(s: Seq<char>, c: char) -> Seq<char> {
    match find_char(s, c) {
        Some(i) => s.take(i as int),
        None => s,
    }
}

/// The header line that opens the runtime dependency table.
pub open spec fn dependencies_header() -> Seq<char> {
    seq!['[', 'd', 'e', 'p', 'e', 'n', 'd', 'e', 'n', 'c', 'i', 'e', 's', ']']
}

/// One trimmed manifest line, given whether the scan is inside
/// `[dependencies]` and the names found so far. A `[...]` line opens a
/// section (the dependency table only when it is exactly
/// `[dependencies]`); inside it, a non-empty, non-comment line with an `=`
/// names the dependency before the `=` and before any `.` in that key
/// (`name = ...` or `name.attr = ...`). Names are kept once each, in order of
/// first appearance.
pub open spec fn dependency_line(line: Seq<char>, in_deps: bool, names: Seq<Seq<char>>) -> (
    bool,
    Seq<Seq<char>>,
) {
    if line.len() > 0 && line[0] == '[' && line.last() == ']' {
        (line == dependencies_header(), names)
    } else if !in_deps || line.len() == 0 || line[0] == '#' {
        (in_deps, names)
    } else {
        match find_char(line, '=') {
            None => (in_deps, names),
            Some(eq) => {
                let name = trim(before_char(trim(line.take(eq as int)), '.'));
                if name.len() > 0 && !names.contains(name) {
                    (in_deps, names.push(name))
                } else {
                    (in_deps, names)
                }
            },
        }
    }
}

/// The scan of `s` from position `i`, with the current line's text so far
/// in `cur`: lines end at each `\n` and at the end of the text, and each is
/// trimmed before it is read.
pub open spec fn scan_dependencies(
    s: Seq<char>,
    i: nat,
    cur: Seq<char>,
    in_deps: bool,
    names: Seq<Seq<char>>,
) -> Seq<Seq<char>>
    decreases s.len() - i,
{
    if i >= s.len() {
        dependency_line(trim(cur), in_deps, names).1
    } else if s[i as int] == '\n' {
        let (d, n) = dependency_line(trim(cur), in_deps, names);
        scan_dependencies(s, i + 1, Seq::empty(), d, n)
    } else {
        scan_dependencies(s, i + 1, cur.push(s[i as int]), in_deps, names)
    }
}

/// The dependency names a manifest declares in its `[dependencies]`
/// section (dev, build and other tables are ignored).
pub open spec fn dependency_names_spec(manifest: Seq<char>) -> Seq<Seq<char>> {
    scan_dependencies(manifest, 0, Seq::empty(), false, Seq::empty())
}

/// The views of a list of strings.
pub open spec fn string_views(v: Seq<String>) -> Seq<Seq<char>> {
    v.map_values(|s: String| s@)
}

proof fn lemma_trim_start_skip(s: Seq<char>, a: int)
    requires
        0 <= a < s.len(),
        is_ws(s[a]),
    ensures
        trim_start(s.subrange(a, s.len() as int)) == trim_start(s.subrange(a + 1, s.len() as int)),
{
    assert(s.subrange(a, s.len() as int).drop_first() =~= s.subrange(a + 1, s.len() as int));
}

proof fn lemma_trim_end_skip(s: Seq<char>, b: int)
    requires
        0 < b <= s.len(),
        is_ws(s[b - 1]),
    ensures
        trim_end(s.subrange(0, b)) == trim_end(s.subrange(0, b - 1)),
{
    assert(s.subrange(0, b).drop_last() =~= s.subrange(0, b - 1));
}

/// The characters of `s` without leading or trailing white space.
fn trimmed(s: &Vec<char>) -> (r: Vec<char>)
    ensures
        r@ == trim(s@),
{
    let n = s.len();
    let mut a: usize = 0;
    proof {
        assert(s@.subrange(0, n as int) =~= s@);
    }
    while a < n && is_ws_exec(s[a])
        invariant
            n == s@.len(),
            a <= n,
            trim_start(s@) == trim_start(s@.subrange(a as int, n as int)),
        decreases n - a,
    {
        proof {
            lemma_trim_start_skip(s@, a as int);
        }
        a = a + 1;
    }
    let ghost rest = s@.subrange(a as int, n as int);
    proof {
        assert(trim_start(s@) == rest);
    }
    let mut b: usize = n;
    while b > a && is_ws_exec(s[b - 1])
        invariant
            n == s@.len(),
            a <= b <= n,
            rest == s@.subrange(a as int, n as int),
            trim_end(rest) == trim_end(s@.subrange(a as int, b as int)),
        decreases b - a,
    {
        proof {
            let t = s@.subrange(a as int, b as int);
            assert(t.drop_last() =~= s@.subrange(a as int, b - 1));
        }
        b = b - 1;
    }
    let mut out: Vec<char> = Vec::new();
    let mut k: usize = a;
    while k < b
        invariant
            a <= k <= b,
            b <= n,
            n == s@.len(),
            out@ == s@.subrange(a as int, k as int),
        decreases b - k,
    {
        out.push(s[k]);
        k = k + 1;
        proof {
            assert(out@ =~= s@.subrange(a as int, k as int));
        }
    }
    proof {
        let t = s@.subrange(a as int, b as int);
        assert(trim_end(t) == t);
    }
    out
}

proof fn lemma_find_char_bound(s: Seq<char>, c: char)
    ensures
        find_char(s, c) matches Some(i) ==> i < s.len() && s[i as int] == c,
    decreases s.len(),
{
    if s.len() > 0 && s[0] != c {
        lemma_find_char_bound(s.drop_first(), c);
    }
}

/// The first position of `c` in `s`.
fn find_char_exec(s: &Vec<char>, c: char) -> (r: Option<usize>)
    ensures
        match r {
            Some(i) => find_char(s@, c) == Some(i as nat) && i < s@.len(),
            None => find_char(s@, c) is None,
        },
{
    let mut i: usize = 0;
    proof {
        assert(s@.subrange(0, s@.len() as int) =~= s@);
        lemma_find_char_bound(s@, c);
    }
    while i < s.len()
        invariant
            i <= s@.len(),
            find_char(s@, c) == match find_char(s@.subrange(i as int, s@.len() as int), c) {
                Some(j) => Some((j + i) as nat),
                None => None,
            },
        decreases s@.len() - i,
    {
        if s[i] == c {
            return Some(i);
        }
        proof {
            assert(s@.subrange(i as int, s@.len() as int).drop_first() =~= s@.subrange(
                i + 1,
                s@.len() as int,
            ));
        }
        i = i + 1;
    }
    None
}

/// The first `n` characters of `s`.
fn prefix(s: &Vec<char>, n: usize) -> (r: Vec<char>)
    requires
        n <= s@.len(),
    ensures
        r@ == s@.take(n as int),
{
    let mut out: Vec<char> = Vec::new();
    let mut k: usize = 0;
    while k < n
        invariant
            k <= n,
            n <= s@.len(),
            out@ == s@.take(k as int),
        decreases n - k,
    {
        out.push(s[k]);
        k = k + 1;
        proof {
            assert(out@ =~= s@.take(k as int));
        }
    }
    out
}

fn chars_eq(a: &Vec<char>, b: &Vec<char>) -> (r: bool)
    ensures
        r == (a@ == b@),
{
    if a.len() != b.len() {
        return false;
    }
    let mut i: usize = 0;
    while i < a.len()
        invariant
            a@.len() == b@.len(),
            i <= a@.len(),
            forall|j: int| 0 <= j < i ==> a@[j] == b@[j],
        decreases a@.len() - i,
    {
        if a[i] != b[i] {
            return false;
        }
        i = i + 1;
    }
    proof {
        assert(a@ =~= b@);
    }
    true
}

fn contains_chars(names: &Vec<Vec<char>>, name: &Vec<char>) -> (r: bool)
    ensures
        r == names@.map_values(|v: Vec<char>| v@).contains(name@),
{
    let ghost views = names@.map_values(|v: Vec<char>| v@);
    let mut i: usize = 0;
    while i < names.len()
        invariant
            i <= names@.len(),
            views == names@.map_values(|v: Vec<char>| v@),
            forall|j: int| 0 <= j < i ==> views[j] != name@,
        decreases names@.len() - i,
    {
        if chars_eq(&names[i], name) {
            proof {
                assert(views[i as int] == name@);
            }
            return true;
        }
        i = i + 1;
    }
    false
}

fn header_chars() -> (r: Vec<char>)
    ensures
        r@ == dependencies_header(),
{
    let r = vec!['[', 'd', 'e', 'p', 'e', 'n', 'd', 'e', 'n', 'c', 'i', 'e', 's', ']'];
    proof {
        assert(r@ =~= dependencies_header());
    }
    r
}

/// Read one raw manifest line; see [`dependency_line`].
fn read_dependency_line(raw: &Vec<char>, in_deps: bool, names: &mut Vec<Vec<char>>) -> (d: bool)
    ensures
        (d, final(names)@.map_values(|v: Vec<char>| v@)) == dependency_line(
            trim(raw@),
            in_deps,
            old(names)@.map_values(|v: Vec<char>| v@),
        ),
{
    let line = trimmed(raw);
    let n = line.len();
    if n > 0 && line[0] == '[' && line[n - 1] == ']' {
        let header = header_chars();
        return chars_eq(&line, &header);
    }
    if !in_deps || n == 0 || line[0] == '#' {
        return in_deps;
    }
    let eq = match find_char_exec(&line, '=') {
        Some(i) => i,
        None => return in_deps,
    };
    let key = trimmed(&prefix(&line, eq));
    let head = match find_char_exec(&key, '.') {
        Some(i) => prefix(&key, i),
        None => key,
    };
    let name = trimmed(&head);
    if name.len() > 0 && !contains_chars(names, &name) {
        let ghost before = names@.map_values(|v: Vec<char>| v@);
        names.push(name);
        proof {
            assert(names@.map_values(|v: Vec<char>| v@) =~= before.push(name@));
        }
    }
    in_deps
}

fn string_of(chars: &Vec<char>) -> (r: String)
    ensures
        r@ == chars@,
{
    let mut s = String::new();
    let mut i: usize = 0;
    while i < chars.len()
        invariant
            i <= chars@.len(),
            s@ == chars@.take(i as int),
        decreases chars@.len() - i,
    {
        push_char(&mut s, chars[i]);
        i = i + 1;
        proof {
            assert(s@ =~= chars@.take(i as int));
        }
    }
    proof {
        assert(chars@.take(chars@.len() as int) =~= chars@);
    }
    s
}

/// Collect the dependency names declared in a manifest's `[dependencies]`
/// section, each once, in order of first appearance.
pub fn dependency_names(manifest: &str) -> (r: Vec<String>)
    ensures
        string_views(r@) == dependency_names_spec(manifest@),
{
    let mut names: Vec<Vec<char>> = Vec::new();
    let mut cur: Vec<char> = Vec::new();
    let mut in_deps = false;
    let ghost s = manifest@;
    proof {
        assert(names@.map_values(|v: Vec<char>| v@) =~= Seq::<Seq<char>>::empty());
        assert(cur@ =~= Seq::<char>::empty());
    }
    for c in it: manifest.chars()
        invariant
            s == manifest@,
            it.seq() == s,
            scan_dependencies(s, 0, Seq::empty(), false, Seq::empty()) == scan_dependencies(
                s,
                it.index() as nat,
                cur@,
                in_deps,
                names@.map_values(|v: Vec<char>| v@),
            ),
    {
        if c == '\n' {
            in_deps = read_dependency_line(&cur, in_deps, &mut names);
            cur = Vec::new();
            proof {
                assert(cur@ =~= Seq::<char>::empty());
            }
        } else {
            cur.push(c);
        }
    }
    read_dependency_line(&cur, in_deps, &mut names);
    let mut out: Vec<String> = Vec::new();
    let mut k: usize = 0;
    while k < names.len()
        invariant
            k <= names@.len(),
            string_views(out@) == names@.map_values(|v: Vec<char>| v@).take(k as int),
        decreases names@.len() - k,
    {
        let ghost before = out@;
        let st = string_of(&names[k]);
        out.push(st);
        k = k + 1;
        proof {
            assert(out@ == before.push(st));
            assert(string_views(before.push(st)) =~= string_views(before).push(st@));
            assert(string_views(out@) =~= names@.map_values(|v: Vec<char>| v@).take(k as int));
        }
    }
    proof {
        assert(names@.map_values(|v: Vec<char>| v@).take(names@.len() as int) =~= names@.map_values(
            |v: Vec<char>| v@,
        ));
    }
    out
}


/// The intra-workspace library crates that may appear as a dependency edge,
/// in name order. The server binary is a leaf consumer and is never
/// depended upon, so it is not among them.
pub open spec fn workspace_libs_spec() -> Seq<Seq<char>> {
    seq!["sw-contracts"@, "sw-econ"@, "sw-net"@, "sw-persist"@, "sw-world"@]
}

/// The library crates that may appear as dependency edges.
pub fn workspace_libs() -> (r: Vec<String>)
    ensures
        string_views(r@) == workspace_libs_spec(),
{
    let r = vec![
        String::from_str("sw-contracts"),
        String::from_str("sw-econ"),
        String::from_str("sw-net"),
        String::from_str("sw-persist"),
        String::from_str("sw-world"),
    ];
    proof {
        assert(string_views(r@) =~= workspace_libs_spec());
    }
    r
}

/// The allowed intra-workspace edges, by crate directory name in name
/// order: the libraries fan out from `sw-contracts` and never reference each
/// other; only the server pulls them all together.
pub open spec fn allowed_edges_spec() -> Seq<(Seq<char>, Seq<Seq<char>>)> {
    seq![
        ("sw-contracts"@, seq![]),
        ("sw-econ"@, seq!["sw-contracts"@]),
        ("sw-net"@, seq!["sw-contracts"@]),
        ("sw-persist"@, seq!["sw-contracts"@]),
        ("sw-server"@, workspace_libs_spec()),
        ("sw-world"@, seq!["sw-contracts"@]),
    ]
}

/// The views of an edge policy.
pub open spec fn policy_views(v: Seq<(String, Vec<String>)>) -> Seq<(Seq<char>, Seq<Seq<char>>)> {
    v.map_values(|e: (String, Vec<String>)| (e.0@, string_views(e.1@)))
}

fn only_contracts() -> (r: Vec<String>)
    ensures
        string_views(r@) == seq!["sw-contracts"@],
{
    let r = vec![String::from_str("sw-contracts")];
    proof {
        assert(string_views(r@) =~= seq!["sw-contracts"@]);
    }
    r
}

/// The allowed intra-workspace edges, keyed by crate directory name.
pub fn allowed_edges() -> (r: Vec<(String, Vec<String>)>)
    ensures
        policy_views(r@) == allowed_edges_spec(),
{
    let none: Vec<String> = Vec::new();
    proof {
        assert(string_views(none@) =~= Seq::<Seq<char>>::empty());
    }
    let r = vec![
        (String::from_str("sw-contracts"), none),
        (String::from_str("sw-econ"), only_contracts()),
        (String::from_str("sw-net"), only_contracts()),
        (String::from_str("sw-persist"), only_contracts()),
        (String::from_str("sw-server"), workspace_libs()),
        (String::from_str("sw-world"), only_contracts()),
    ];
    proof {
        assert(policy_views(r@) =~= allowed_edges_spec());
    }
    r
}

/// The first position at which `pat` occurs in `s`.
pub open spec fn find_sub(s: Seq<char>, pat: Seq<char>) -> Option<nat>
    decreases s.len(),
{
    if s.len() < pat.len() {
        None
    } else if s.take(pat.len() as int) == pat {
        Some(0)
    } else if s.len() == 0 {
        None
    } else {
        match find_sub(s.drop_first(), pat) {
            Some(i) => Some(i + 1),
            None => None,
        }
    }
}

/// The part of `s` after its last `c`, or all of `s`
/// (`rsplit(c).next()`).
pub open spec fn after_last(s: Seq<char>, c: char) -> Seq<char>
    decreases s.len(),
{
    if s.len() == 0 {
        s
    } else if s.last() == c {
        Seq::empty()
    } else {
        after_last(s.drop_last(), c).push(s.last())
    }
}

/// The quoted entries of a `members` array body, each reduced to its last
/// path component; `None` when a quote is left open.
pub open spec fn member_entries(rest: Seq<char>) -> Option<Seq<Seq<char>>>
    decreases rest.len(),
{
    match find_char(rest, '"') {
        None => Some(Seq::empty()),
        Some(open) => {
            if open < rest.len() {
                let after = rest.skip(open + 1 as int);
                match find_char(after, '"') {
                    None => None,
                    Some(close) => {
                        if close < after.len() {
                            let entry = after.take(close as int);
                            match member_entries(after.skip(close + 1 as int)) {
                                None => None,
                                Some(more) => Some(seq![after_last(entry, '/')] + more),
                            }
                        } else {
                            None
                        }
                    },
                }
            } else {
                None
            }
        },
    }
}

/// The word that introduces the members array.
pub open spec fn members_word() -> Seq<char> {
    seq!['m', 'e', 'm', 'b', 'e', 'r', 's']
}

/// The directory names of a workspace manifest's `members = [...]` entries
/// (`crates/sw-net` gives `sw-net`): the array opens at the first `[` after
/// the first `members` and closes at the next `]`. `None` when there is no
/// such array or an entry's quote is left open.
pub open spec fn workspace_members_spec(m: Seq<char>) -> Option<Seq<Seq<char>>> {
    match find_sub(m, members_word()) {
        None => None,
        Some(i) => match find_char(m.skip(i as int), '[') {
            None => None,
            Some(j) => {
                let start = i + j + 1;
                match find_char(m.skip(start as int), ']') {
                    None => None,
                    Some(e) => member_entries(m.subrange(start as int, (start + e) as int)),
                }
            },
        },
    }
}

proof fn lemma_find_sub_bound(s: Seq<char>, pat: Seq<char>)
    ensures
        find_sub(s, pat) matches Some(i) ==> i + pat.len() <= s.len(),
    decreases s.len(),
{
    if s.len() >= pat.len() && s.take(pat.len() as int) != pat && s.len() > 0 {
        lemma_find_sub_bound(s.drop_first(), pat);
    }
}

fn chars_of(s: &str) -> (r: Vec<char>)
    ensures
        r@ == s@,
{
    let mut out: Vec<char> = Vec::new();
    for c in it: s.chars()
        invariant
            it.seq() == s@,
            out@ == s@.take(it.index() as int),
    {
        out.push(c);
        proof {
            assert(out@ =~= s@.take(it.index() + 1));
        }
    }
    proof {
        assert(out@ =~= s@);
    }
    out
}

/// The characters of `s` from position `from` to position `to`.
fn slice_chars(s: &Vec<char>, from: usize, to: usize) -> (r: Vec<char>)
    requires
        from <= to <= s@.len(),
    ensures
        r@ == s@.subrange(from as int, to as int),
{
    let mut out: Vec<char> = Vec::new();
    let mut k: usize = from;
    while k < to
        invariant
            from <= k <= to,
            to <= s@.len(),
            out@ == s@.subrange(from as int, k as int),
        decreases to - k,
    {
        out.push(s[k]);
        k = k + 1;
        proof {
            assert(out@ =~= s@.subrange(from as int, k as int));
        }
    }
    out
}

fn find_sub_exec(s: &Vec<char>, pat: &Vec<char>) -> (r: Option<usize>)
    ensures
        match r {
            Some(i) => find_sub(s@, pat@) == Some(i as nat) && i + pat@.len() <= s@.len(),
            None => find_sub(s@, pat@) is None,
        },
{
    let mut i: usize = 0;
    proof {
        assert(s@.subrange(0, s@.len() as int) =~= s@);
        lemma_find_sub_bound(s@, pat@);
    }
    while i <= s.len()
        invariant
            i <= s@.len() + 1,
            i <= s@.len() ==> find_sub(s@, pat@) == match find_sub(s@.subrange(i as int, s@.len() as int), pat@) {
                Some(j) => Some((j + i) as nat),
                None => None,
            },
            i > s@.len() ==> find_sub(s@, pat@) is None,
        decreases s@.len() + 1 - i,
    {
        let rest_len = s.len() - i;
        if rest_len < pat.len() {
            return None;
        }
        let mut k: usize = 0;
        let mut same = true;
        while k < pat.len()
            invariant
                k <= pat@.len(),
                i + pat@.len() <= s@.len(),
                s@.len() <= usize::MAX,
                same == forall|m: int| 0 <= m < k ==> s@[i + m] == pat@[m],
            decreases pat@.len() - k,
        {
            assert(i + k < s@.len());
            if s[i + k] != pat[k] {
                same = false;
            }
            k = k + 1;
        }
        let ghost rest = s@.subrange(i as int, s@.len() as int);
        if same {
            proof {
                assert(rest.take(pat@.len() as int) =~= pat@);
            }
            return Some(i);
        }
        proof {
            assert(rest.take(pat@.len() as int) != pat@) by {
                let m = choose|m: int| 0 <= m < pat@.len() && s@[i + m] != pat@[m];
                assert(rest.take(pat@.len() as int)[m] == s@[i + m]);
            }
            if i < s@.len() {
                assert(rest.drop_first() =~= s@.subrange(i + 1, s@.len() as int));
            }
        }
        i = i + 1;
    }
    None
}

fn after_last_exec(s: &Vec<char>, c: char) -> (r: Vec<char>)
    ensures
        r@ == after_last(s@, c),
{
    let mut k: usize = s.len();
    proof {
        assert(s@.subrange(0, s@.len() as int) =~= s@);
    }
    while k > 0 && s[k - 1] != c
        invariant
            k <= s@.len(),
            after_last(s@, c) == after_last(s@.take(k as int), c) + s@.subrange(k as int, s@.len() as int),
        decreases k,
    {
        proof {
            let t = s@.take(k as int);
            assert(t.drop_last() =~= s@.take(k - 1));
            assert(after_last(t, c) == after_last(s@.take(k - 1), c).push(s@[k - 1]));
            assert(s@.subrange(k - 1, s@.len() as int) =~= seq![s@[k - 1]] + s@.subrange(k as int, s@.len() as int));
            assert(after_last(s@.take(k - 1), c).push(s@[k - 1]) + s@.subrange(k as int, s@.len() as int)
                =~= after_last(s@.take(k - 1), c) + s@.subrange(k - 1, s@.len() as int));
        }
        k = k - 1;
    }
    proof {
        assert(after_last(s@.take(k as int), c) =~= Seq::<char>::empty());
        assert(Seq::<char>::empty() + s@.subrange(k as int, s@.len() as int) =~= s@.subrange(k as int, s@.len() as int));
    }
    slice_chars(s, k, s.len())
}

/// Extract the quoted `members = [...]` entries from a workspace manifest,
/// each as its directory name; `None` when the array is missing or an
/// entry's quote is left open.
pub fn workspace_members(manifest: &str) -> (r: Option<Vec<String>>)
    ensures
        match r {
            Some(v) => workspace_members_spec(manifest@) == Some(string_views(v@)),
            None => workspace_members_spec(manifest@) is None,
        },
{
    let m = chars_of(manifest);
    let word = vec!['m', 'e', 'm', 'b', 'e', 'r', 's'];
    proof {
        assert(word@ =~= members_word());
    }
    let i = match find_sub_exec(&m, &word) {
        Some(i) => i,
        None => return None,
    };
    let from_word = slice_chars(&m, i, m.len());
    proof {
        assert(from_word@ =~= m@.skip(i as int));
    }
    let j = match find_char_exec(&from_word, '[') {
        Some(j) => j,
        None => return None,
    };
    let start = i + j + 1;
    let from_start = slice_chars(&m, start, m.len());
    proof {
        assert(from_start@ =~= m@.skip(start as int));
    }
    let e = match find_char_exec(&from_start, ']') {
        Some(e) => e,
        None => return None,
    };
    let mut rest = slice_chars(&m, start, start + e);
    let mut out: Vec<String> = Vec::new();
    let ghost body = rest@;
    proof {
        assert(string_views(out@) =~= Seq::<Seq<char>>::empty());
        assert(Seq::<Seq<char>>::empty() + Seq::<Seq<char>>::empty() =~= Seq::<Seq<char>>::empty());
    }
    loop
        invariant
            member_entries(body) == match member_entries(rest@) {
                Some(more) => Some(string_views(out@) + more),
                None => None,
            },
            workspace_members_spec(manifest@) == member_entries(body),
        decreases rest@.len(),
    {
        proof {
            lemma_find_char_bound(rest@, '"');
        }
        let open = match find_char_exec(&rest, '"') {
            Some(o) => o,
            None => {
                proof {
                    assert(string_views(out@) + Seq::<Seq<char>>::empty() =~= string_views(out@));
                }
                return Some(out);
            },
        };
        let after = slice_chars(&rest, open + 1, rest.len());
        proof {
            assert(after@ =~= rest@.skip(open + 1));
            lemma_find_char_bound(after@, '"');
        }
        let close = match find_char_exec(&after, '"') {
            Some(c) => c,
            None => return None,
        };
        let entry = prefix(&after, close);
        let dir = after_last_exec(&entry, '/');
        let ghost before = out@;
        let st = string_of(&dir);
        out.push(st);
        let next = slice_chars(&after, close + 1, after.len());
        proof {
            assert(next@ =~= after@.skip(close + 1));
            assert(string_views(out@) =~= string_views(before).push(dir@));
            match member_entries(next@) {
                Some(more) => {
                    assert(string_views(before) + (seq![dir@] + more) =~= string_views(out@) + more);
                },
                None => {},
            }
        }
        rest = next;
    }
}


proof fn lemma_line_keeps_distinct(line: Seq<char>, in_deps: bool, names: Seq<Seq<char>>)
    requires
        names.no_duplicates(),
    ensures
        dependency_line(line, in_deps, names).1.no_duplicates(),
        names.is_prefix_of(dependency_line(line, in_deps, names).1),
{
    let r = dependency_line(line, in_deps, names).1;
    assert(names.is_prefix_of(r)) by {
        if r.len() > names.len() {
            assert(r.take(names.len() as int) =~= names);
        } else {
            assert(r =~= names);
        }
    }
    if r.len() > names.len() {
        let name = r.last();
        assert(!names.contains(name));
        assert forall|a: int, b: int| 0 <= a < r.len() && 0 <= b < r.len() && a != b implies r[a]
            != r[b] by {
            if a < names.len() && b < names.len() {
            } else if a < names.len() {
                assert(names.contains(names[a]));
            } else {
                assert(names.contains(names[b]));
            }
        }
    }
}

proof fn lemma_scan_keeps_distinct(
    s: Seq<char>,
    i: nat,
    cur: Seq<char>,
    in_deps: bool,
    names: Seq<Seq<char>>,
)
    requires
        names.no_duplicates(),
    ensures
        scan_dependencies(s, i, cur, in_deps, names).no_duplicates(),
    decreases s.len() - i,
{
    lemma_line_keeps_distinct(trim(cur), in_deps, names);
    if i < s.len() {
        if s[i as int] == '\n' {
            let (d, n) = dependency_line(trim(cur), in_deps, names);
            lemma_scan_keeps_distinct(s, i + 1, Seq::empty(), d, n);
        } else {
            lemma_scan_keeps_distinct(s, i + 1, cur.push(s[i as int]), in_deps, names);
        }
    }
}

/// A manifest never yields the same dependency name twice.
pub proof fn lemma_dependency_names_are_distinct(manifest: Seq<char>)
    ensures
        dependency_names_spec(manifest).no_duplicates(),
{
    lemma_scan_keeps_distinct(manifest, 0, Seq::empty(), false, Seq::empty());
}

proof fn lemma_scan_without_tables(s: Seq<char>, i: nat, cur: Seq<char>)
    requires
        forall|k: int| 0 <= k < s.len() ==> s[k] != '[',
        forall|k: int| 0 <= k < cur.len() ==> cur[k] != '[',
    ensures
        scan_dependencies(s, i, cur, false, Seq::empty()) == Seq::<Seq<char>>::empty(),
    decreases s.len() - i,
{
    assert(dependency_line(trim(cur), false, Seq::empty()) == (false, Seq::<Seq<char>>::empty())) by {
        let t = trim(cur);
        if t.len() > 0 && t[0] == '[' {
            let a = lemma_trim_is_infix(cur);
            assert(cur.subrange(a, a + t.len())[0] == t[0]);
        }
    }
    if i < s.len() {
        if s[i as int] == '\n' {
            lemma_scan_without_tables(s, i + 1, Seq::empty());
        } else {
            let next = cur.push(s[i as int]);
            assert forall|k: int| 0 <= k < next.len() implies next[k] != '[' by {
                if k < cur.len() {
                    assert(next[k] == cur[k]);
                }
            }
            lemma_scan_without_tables(s, i + 1, next);
        }
    }
}

/// A manifest with no table header at all declares no dependency: lines
/// outside a `[dependencies]` table are never read as one.
pub proof fn lemma_no_table_no_names(manifest: Seq<char>)
    requires
        forall|k: int| 0 <= k < manifest.len() ==> manifest[k] != '[',
    ensures
        dependency_names_spec(manifest) == Seq::<Seq<char>>::empty(),
{
    lemma_scan_without_tables(manifest, 0, Seq::empty());
}

proof fn lemma_trim_start_is_suffix(s: Seq<char>) -> (a: int)
    ensures
        0 <= a <= s.len(),
        trim_start(s) == s.subrange(a, s.len() as int),
    decreases s.len(),
{
    if s.len() > 0 && is_ws(s[0]) {
        let a = lemma_trim_start_is_suffix(s.drop_first());
        assert(s.drop_first().subrange(a, s.drop_first().len() as int) =~= s.subrange(a + 1, s.len() as int));
        a + 1
    } else {
        assert(s.subrange(0, s.len() as int) =~= s);
        0
    }
}

proof fn lemma_trim_end_is_prefix(s: Seq<char>) -> (b: int)
    ensures
        0 <= b <= s.len(),
        trim_end(s) == s.subrange(0, b),
    decreases s.len(),
{
    if s.len() > 0 && is_ws(s.last()) {
        let b = lemma_trim_end_is_prefix(s.drop_last());
        assert(s.drop_last().subrange(0, b) =~= s.subrange(0, b));
        b
    } else {
        assert(s.subrange(0, s.len() as int) =~= s);
        s.len() as int
    }
}

proof fn lemma_trim_is_infix(s: Seq<char>) -> (a: int)
    ensures
        0 <= a,
        a + trim(s).len() <= s.len(),
        s.subrange(a, a + trim(s).len()) == trim(s),
{
    let a = lemma_trim_start_is_suffix(s);
    let t = trim_start(s);
    let b = lemma_trim_end_is_prefix(t);
    assert(s.subrange(a, a + b) =~= t.subrange(0, b));
    a
}

} // verus!
