//! The manifest: a mapping from canonical path to digest, kept as a list of
//! entries with unique paths in the order they were first recorded, and its
//! line format `<digest> <path>`.
use vstd::prelude::*;
use vstd::string::*;

verus! {

/// The mapping that a list of `(key, value)` pairs denotes: a later pair for a
/// key overrides an earlier one.
pub open spec fn map_of(s: Seq<(Seq<char>, Seq<char>)>) -> Map<Seq<char>, Seq<char>>
    decreases s.len(),
{
    if s.len() == 0 {
        Map::empty()
    } else {
        map_of(s.drop_last()).insert(s.last().0, s.last().1)
    }
}

/// The keys of a list of pairs, in order.
pub open spec fn keys_of(s: Seq<(Seq<char>, Seq<char>)>) -> Seq<Seq<char>> {
    s.map_values(|p: (Seq<char>, Seq<char>)| p.0)
}

/// No key occurs twice.
pub open spec fn unique_keys(s: Seq<(Seq<char>, Seq<char>)>) -> bool {
    forall|i: int, j: int| 0 <= i < j < s.len() ==> s[i].0 != s[j].0
}

pub proof fn lemma_map_of_domain(s: Seq<(Seq<char>, Seq<char>)>, k: Seq<char>)
    ensures
        map_of(s).contains_key(k) <==> keys_of(s).contains(k),
    decreases s.len(),
{
    if s.len() > 0 {
        lemma_map_of_domain(s.drop_last(), k);
        assert(keys_of(s.drop_last()) =~= keys_of(s).drop_last());
        if keys_of(s).contains(k) {
            let i = choose|i: int| 0 <= i < keys_of(s).len() && keys_of(s)[i] == k;
            if i < s.len() - 1 {
                assert(keys_of(s.drop_last())[i] == k);
            }
        }
        if map_of(s).contains_key(k) {
            if k == s.last().0 {
                assert(keys_of(s)[s.len() - 1] == k);
            } else {
                let j = choose|j: int|
                    0 <= j < keys_of(s.drop_last()).len() && keys_of(s.drop_last())[j] == k;
                assert(keys_of(s)[j] == k);
            }
        }
    }
}

pub proof fn lemma_map_of_index(s: Seq<(Seq<char>, Seq<char>)>, i: int)
    requires
        unique_keys(s),
        0 <= i < s.len(),
    ensures
        map_of(s).contains_key(s[i].0),
        map_of(s)[s[i].0] == s[i].1,
    decreases s.len(),
{
    if i < s.len() - 1 {
        lemma_map_of_index(s.drop_last(), i);
    }
}

pub proof fn lemma_map_of_update(s: Seq<(Seq<char>, Seq<char>)>, i: int, v: Seq<char>)
    requires
        unique_keys(s),
        0 <= i < s.len(),
    ensures
        unique_keys(s.update(i, (s[i].0, v))),
        map_of(s.update(i, (s[i].0, v))) == map_of(s).insert(s[i].0, v),
{
    let t = s.update(i, (s[i].0, v));
    assert(keys_of(t) =~= keys_of(s));
    assert forall|k: Seq<char>| #[trigger]
        map_of(t).contains_key(k) == map_of(s).insert(s[i].0, v).contains_key(k) by {
        lemma_map_of_domain(t, k);
        lemma_map_of_domain(s, k);
        if k == s[i].0 {
            assert(keys_of(s)[i] == k);
        }
    }
    assert forall|k: Seq<char>| #[trigger] map_of(t).contains_key(k) implies map_of(t)[k] == map_of(
        s,
    ).insert(s[i].0, v)[k] by {
        lemma_map_of_domain(t, k);
        let j = choose|j: int| 0 <= j < keys_of(t).len() && keys_of(t)[j] == k;
        lemma_map_of_index(t, j);
        if j != i {
            lemma_map_of_index(s, j);
        }
    }
    assert(map_of(t) =~= map_of(s).insert(s[i].0, v));
}

/// A manifest line with `path` and `digest`: `<digest> <path>`.
pub open spec fn line_of(path: Seq<char>, digest: Seq<char>) -> Seq<char> {
    digest + seq![' '] + path
}

/// The characters that `str::trim` removes (Unicode `White_Space`).
pub open spec fn is_ws(c: char) -> bool {
    ('\u{9}' <= c && c <= '\u{d}') || c == ' ' || c == '\u{85}' || c == '\u{a0}' || c
        == '\u{1680}' || ('\u{2000}' <= c && c <= '\u{200a}') || c == '\u{2028}' || c
        == '\u{2029}' || c == '\u{202f}' || c == '\u{205f}' || c == '\u{3000}'
}

pub open spec fn trim_start(s: Seq<char>) -> Seq<char>
    decreases s.len(),
{
    if s.len() > 0 && is_ws(s[0]) {
        trim_start(s.drop_first())
    } else {
        s
    }
}

pub open spec fn trim_end(s: Seq<char>) -> Seq<char>
    decreases s.len(),
{
    if s.len() > 0 && is_ws(s.last()) {
        trim_end(s.drop_last())
    } else {
        s
    }
}

/// `s` without leading and trailing whitespace.
pub open spec fn trim(s: Seq<char>) -> Seq<char> {
    trim_end(trim_start(s))
}

/// The index of the first space in `s`, or its length when it has none.
pub open spec fn first_space(s: Seq<char>) -> int
    decreases s.len(),
{
    if s.len() == 0 || s[0] == ' ' {
        0
    } else {
        1 + first_space(s.drop_first())
    }
}

/// What a manifest line records, as `(path, digest)`: the trimmed line split at
/// its first space into two non-empty parts; nothing for a blank or malformed line.
pub open spec fn line_entry(line: Seq<char>) -> Option<(Seq<char>, Seq<char>)> {
    let t = trim(line);
    let i = first_space(t);
    if i >= t.len() || i == 0 || i + 1 == t.len() {
        None
    } else {
        Some((t.skip(i + 1), t.take(i)))
    }
}

/// The entries that a sequence of manifest lines records, in order.
pub open spec fn parsed_entries(lines: Seq<Seq<char>>) -> Seq<(Seq<char>, Seq<char>)>
    decreases lines.len(),
{
    if lines.len() == 0 {
        Seq::empty()
    } else {
        match line_entry(lines.last()) {
            Some(e) => parsed_entries(lines.drop_last()).push(e),
            None => parsed_entries(lines.drop_last()),
        }
    }
}

/// A well-formed digest: 64 lowercase hexadecimal characters.
pub open spec fn is_hex_digest(d: Seq<char>) -> bool {
    d.len() == 64 && forall|i: int| 0 <= i < d.len() ==> (('0' <= #[trigger] d[i] && d[i] <= '9') || (
    'a' <= d[i] && d[i] <= 'f'))
}

/// A path that a manifest line carries unchanged: non-empty, without line breaks,
/// and not starting or ending with whitespace.
pub open spec fn is_line_path(p: Seq<char>) -> bool {
    &&& p.len() > 0
    &&& !is_ws(p[0])
    &&& !is_ws(p.last())
    &&& forall|i: int| 0 <= i < p.len() ==> #[trigger] p[i] != '\n' && p[i] != '\r'
}

/// The lines that record a list of `(path, digest)` pairs, one per entry, in order.
pub open spec fn rendered_lines(s: Seq<(Seq<char>, Seq<char>)>) -> Seq<Seq<char>> {
    s.map_values(|e: (Seq<char>, Seq<char>)| line_of(e.0, e.1))
}

/// Whether `c` is whitespace in the sense of `str::trim`.
pub fn is_ws_char(c: char) -> (r: bool)
    ensures
        r == is_ws(c),
{
    ('\u{9}' <= c && c <= '\u{d}') || c == ' ' || c == '\u{85}' || c == '\u{a0}' || c
        == '\u{1680}' || ('\u{2000}' <= c && c <= '\u{200a}') || c == '\u{2028}' || c
        == '\u{2029}' || c == '\u{202f}' || c == '\u{205f}' || c == '\u{3000}'
}

/// The `<digest> <path>` line of one entry.
pub fn render_line(path: &str, digest: &str) -> (r: String)
    ensures
        r@ == line_of(path@, digest@),
{
    let mut r = String::from_str(digest);
    r.append(" ");
    proof {
        reveal_strlit(" ");
    }
    r.append(path);
    assert(r@ =~= line_of(path@, digest@));
    r
}

/// Reads one manifest line: `Some` entry when the trimmed line splits at its
/// first space into a non-empty digest and a non-empty path, `None` otherwise.
pub fn parse_line(line: &str) -> (r: Option<ManifestEntry>)
    ensures
        match r {
            Some(e) => line_entry(line@) == Some((e.path@, e.digest@)),
            None => line_entry(line@) is None,
        },
{
    let n = line.unicode_len();
    let mut a: usize = 0;
    assert(line@.skip(0) =~= line@);
    while a < n && is_ws_char(line.get_char(a))
        invariant
            a <= n,
            n == line@.len(),
            trim_start(line@) == trim_start(line@.skip(a as int)),
        decreases n - a,
    {
        assert(line@.skip(a as int).drop_first() =~= line@.skip(a as int + 1));
        a = a + 1;
    }
    assert(trim_start(line@) == line@.skip(a as int));
    let ghost t1 = line@.skip(a as int);
    let mut e: usize = n;
    while e > a && is_ws_char(line.get_char(e - 1))
        invariant
            a <= e <= n,
            n == line@.len(),
            t1 == line@.skip(a as int),
            trim_end(t1) == trim_end(line@.subrange(a as int, e as int)),
        decreases e,
    {
        assert(line@.subrange(a as int, e as int).drop_last() =~= line@.subrange(a as int, e as int - 1));
        e = e - 1;
    }
    assert(line@.skip(a as int) =~= line@.subrange(a as int, n as int));
    let ghost t = line@.subrange(a as int, e as int);
    assert(trim(line@) == t);
    let mut j: usize = a;
    while j < e && line.get_char(j) != ' '
        invariant
            a <= j <= e,
            e <= n,
            n == line@.len(),
            t == line@.subrange(a as int, e as int),
            first_space(t) == (j - a) + first_space(line@.subrange(j as int, e as int)),
        decreases e - j,
    {
        assert(line@.subrange(j as int, e as int).drop_first() =~= line@.subrange(j as int + 1, e as int));
        j = j + 1;
    }
    assert(first_space(t) == j - a);
    if j >= e || j == a || j + 1 == e {
        None
    } else {
        let digest = String::from_str(line.substring_char(a, j));
        let path = String::from_str(line.substring_char(j + 1, e));
        assert(digest@ =~= t.take(j - a));
        assert(path@ =~= t.skip(j - a + 1));
        Some(ManifestEntry { path, digest })
    }
}

pub proof fn lemma_first_space_after(a: Seq<char>, b: Seq<char>)
    requires
        forall|i: int| 0 <= i < a.len() ==> a[i] != ' ',
    ensures
        first_space(a + seq![' '] + b) == a.len(),
    decreases a.len(),
{
    if a.len() > 0 {
        assert((a + seq![' '] + b).drop_first() =~= a.drop_first() + seq![' '] + b);
        lemma_first_space_after(a.drop_first(), b);
    } else {
        assert((a + seq![' '] + b)[0] == ' ');
    }
}

/// A line rendered from a well-formed path and digest reads back as that entry.
pub proof fn lemma_line_round_trip(path: Seq<char>, digest: Seq<char>)
    requires
        is_line_path(path),
        is_hex_digest(digest),
    ensures
        line_entry(line_of(path, digest)) == Some((path, digest)),
{
    let l = line_of(path, digest);
    assert(l[0] == digest[0]);
    assert(l.last() == path.last());
    assert(trim_start(l) == l);
    assert(trim_end(l) == l);
    lemma_first_space_after(digest, path);
    assert(l.take(64) =~= digest);
    assert(l.skip(65) =~= path);
}

/// Reading back the lines of well-formed entries gives the entries themselves.
pub proof fn lemma_parse_rendered(s: Seq<(Seq<char>, Seq<char>)>)
    requires
        forall|i: int| 0 <= i < s.len() ==> is_line_path(#[trigger] s[i].0) && is_hex_digest(s[i].1),
    ensures
        parsed_entries(rendered_lines(s)) == s,
    decreases s.len(),
{
    if s.len() > 0 {
        let ls = rendered_lines(s);
        let init = s.drop_last();
        let e = s.last();
        assert(ls.drop_last() =~= rendered_lines(init));
        assert(ls.last() == line_of(e.0, e.1));
        assert forall|i: int| 0 <= i < init.len() implies is_line_path(#[trigger] init[i].0)
            && is_hex_digest(init[i].1) by {
            assert(init[i] == s[i]);
        }
        lemma_parse_rendered(init);
        assert(is_line_path(s[s.len() - 1].0) && is_hex_digest(s[s.len() - 1].1));
        lemma_line_round_trip(e.0, e.1);
        assert(parsed_entries(ls) == parsed_entries(ls.drop_last()).push(e));
        assert(init.push(e) =~= s);
    }
}

/// One entry of a manifest.
pub struct ManifestEntry {
    pub path: String,
    pub digest: String,
}

/// A manifest: entries with unique paths, in the order they were first recorded.
pub struct Manifest {
    entries: Vec<ManifestEntry>,
}

impl Manifest {
    /// The entries as `(path, digest)` pairs, in order.
    pub closed spec fn pairs(&self) -> Seq<(Seq<char>, Seq<char>)> {
        self.entries@.map_values(|e: ManifestEntry| (e.path@, e.digest@))
    }

    /// The mapping from path to digest.
    pub open spec fn view(&self) -> Map<Seq<char>, Seq<char>> {
        map_of(self.pairs())
    }

    pub open spec fn wf(&self) -> bool {
        unique_keys(self.pairs())
    }

    /// An empty manifest.
    pub fn new() -> (r: Manifest)
        ensures
            r.wf(),
            r.pairs() == Seq::<(Seq<char>, Seq<char>)>::empty(),
            r@ == Map::<Seq<char>, Seq<char>>::empty(),
    {
        let r = Manifest { entries: Vec::new() };
        assert(r.pairs() =~= Seq::<(Seq<char>, Seq<char>)>::empty());
        r
    }

    /// The number of entries.
    pub fn len(&self) -> (r: usize)
        ensures
            r == self.pairs().len(),
    {
        self.entries.len()
    }

    /// The path and digest of the entry at `i`.
    pub fn entry(&self, i: usize) -> (r: (&String, &String))
        requires
            i < self.pairs().len(),
        ensures
            r.0@ == self.pairs()[i as int].0,
            r.1@ == self.pairs()[i as int].1,
    {
        let e = &self.entries[i];
        (&e.path, &e.digest)
    }

    /// The position of the entry for `path`, if there is one.
    pub fn find(&self, path: &str) -> (r: Option<usize>)
        ensures
            match r {
                Some(i) => i < self.pairs().len() && self.pairs()[i as int].0 == path@,
                None => !keys_of(self.pairs()).contains(path@),
            },
    {
        let key = String::from_str(path);
        let mut i: usize = 0;
        while i < self.entries.len()
            invariant
                i <= self.pairs().len(),
                key@ == path@,
                forall|j: int| 0 <= j < i ==> self.pairs()[j].0 != path@,
            decreases self.entries.len() - i,
        {
            if self.entries[i].path == key {
                return Some(i);
            }
            i = i + 1;
        }
        None
    }

    /// Records `digest` for `path`: the entry for `path` is overwritten in place,
    /// or a new entry is appended.
    pub fn insert(&mut self, path: String, digest: String)
        requires
            old(self).wf(),
        ensures
            final(self).wf(),
            final(self)@ == old(self)@.insert(path@, digest@),
            keys_of(old(self).pairs()).contains(path@) ==> keys_of(final(self).pairs()) == keys_of(
                old(self).pairs(),
            ),
            !keys_of(old(self).pairs()).contains(path@) ==> keys_of(final(self).pairs()) == keys_of(
                old(self).pairs(),
            ).push(path@),
    {
        let ghost s = self.pairs();
        match self.find(path.as_str()) {
            Some(i) => {
                proof {
                    lemma_map_of_update(s, i as int, digest@);
                }
                self.entries.set(i, ManifestEntry { path, digest });
                assert(self.pairs() =~= s.update(i as int, (s[i as int].0, digest@)));
                assert(keys_of(self.pairs()) =~= keys_of(s));
                assert(keys_of(s)[i as int] == path@);
            },
            None => {
                self.entries.push(ManifestEntry { path, digest });
                assert(self.pairs() =~= s.push((path@, digest@)));
                assert(self.pairs().drop_last() =~= s);
                assert(keys_of(self.pairs()) =~= keys_of(s).push(path@));
                assert forall|i: int, j: int| 0 <= i < j < self.pairs().len() implies self.pairs()[i].0
                    != self.pairs()[j].0 by {
                    if j == s.len() {
                        assert(keys_of(s)[i] == s[i].0);
                    }
                }
            },
        }
    }

    /// Whether every entry carries a well-formed path and a 64-hex-digit digest.
    pub open spec fn well_formed_entries(&self) -> bool {
        forall|i: int|
            0 <= i < self.pairs().len() ==> is_line_path(#[trigger] self.pairs()[i].0)
                && is_hex_digest(self.pairs()[i].1)
    }

    /// The manifest's lines, `<digest> <path>`, one per entry in order.
    pub fn to_lines(&self) -> (r: Vec<String>)
        ensures
            r@.map_values(|l: String| l@) == rendered_lines(self.pairs()),
    {
        let mut r: Vec<String> = Vec::new();
        let mut i: usize = 0;
        while i < self.entries.len()
            invariant
                i <= self.pairs().len(),
                r@.map_values(|l: String| l@) == rendered_lines(self.pairs().take(i as int)),
            decreases self.entries.len() - i,
        {
            let e = &self.entries[i];
            let line = render_line(e.path.as_str(), e.digest.as_str());
            let ghost before = r@;
            r.push(line);
            assert(self.pairs()[i as int] == (e.path@, e.digest@));
            assert(rendered_lines(self.pairs().take(i as int + 1)) =~= rendered_lines(
                self.pairs().take(i as int),
            ).push(line_of(e.path@, e.digest@)));
            assert(r@.map_values(|l: String| l@) =~= before.map_values(|l: String| l@).push(
                line_of(e.path@, e.digest@),
            ));
            i = i + 1;
        }
        assert(self.pairs().take(i as int) =~= self.pairs());
        r
    }

    /// Reads a manifest from its lines. Blank and malformed lines are skipped; the
    /// last line for a path wins.
    pub fn from_lines(lines: &Vec<String>) -> (r: Manifest)
        ensures
            r.wf(),
            r@ == map_of(parsed_entries(lines@.map_values(|l: String| l@))),
    {
        let ghost ls = lines@.map_values(|l: String| l@);
        let mut m = Manifest::new();
        let mut i: usize = 0;
        while i < lines.len()
            invariant
                i <= lines@.len(),
                ls == lines@.map_values(|l: String| l@),
                m.wf(),
                m@ == map_of(parsed_entries(ls.take(i as int))),
            decreases lines.len() - i,
        {
            assert(ls.take(i as int + 1).drop_last() =~= ls.take(i as int));
            assert(ls.take(i as int + 1).last() == lines@[i as int]@);
            let ghost pe = parsed_entries(ls.take(i as int));
            match parse_line(lines[i].as_str()) {
                Some(e) => {
                    assert(parsed_entries(ls.take(i as int + 1)) == pe.push((e.path@, e.digest@)));
                    assert(pe.push((e.path@, e.digest@)).drop_last() =~= pe);
                    m.insert(e.path, e.digest);
                },
                None => {
                    assert(parsed_entries(ls.take(i as int + 1)) == pe);
                },
            }
            i = i + 1;
        }
        assert(ls.take(i as int) =~= ls);
        m
    }

    /// The digest recorded for `path`.
    pub fn get(&self, path: &str) -> (r: Option<&String>)
        requires
            self.wf(),
        ensures
            match r {
                Some(d) => self@.contains_key(path@) && d@ == self@[path@],
                None => !self@.contains_key(path@),
            },
    {
        proof {
            lemma_map_of_domain(self.pairs(), path@);
        }
        match self.find(path) {
            Some(i) => {
                proof {
                    lemma_map_of_index(self.pairs(), i as int);
                }
                Some(&self.entries[i].digest)
            },
            None => None,
        }
    }
}

/// Saving a manifest as lines and loading those lines gives the same mapping,
/// for entries whose paths and digests a line can carry.
pub proof fn lemma_save_load_round_trip(m: Manifest)
    requires
        m.wf(),
        m.well_formed_entries(),
    ensures
        map_of(parsed_entries(rendered_lines(m.pairs()))) == m@,
{
    lemma_parse_rendered(m.pairs());
}

} // verus!
