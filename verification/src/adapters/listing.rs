//! Directory listings: which entries are shown, in what order, and where a
//! walk stops. The host reads the directories.

use vstd::prelude::*;

use crate::adapters::fs::{FsError, FsErrorV, FsExecutor};
use crate::json::{Json, Value};
use crate::text::{text_less, wrapped};

verus! {

use crate::fields::{is_set, object, text_field, with};
use crate::json::values_view;
use crate::ordered::{opt_view, views};
use crate::text::{lex_less, texts_view};

broadcast use crate::json::group_json_views;

/// Why the text is no glob pattern.
pub uninterp spec fn glob_defect(pattern: Seq<char>) -> Option<Seq<char>>;

/// The glob pattern matches the path.
pub uninterp spec fn glob_matches(pattern: Seq<char>, path: Seq<char>) -> bool;

/// The text holds no backslash, which platforms read in different ways.
pub open spec fn plain(s: Seq<char>) -> bool {
    !s.contains('\\')
}

/// Calls `globset::Glob::new` and `globset::GlobSetBuilder::build` and
/// returns the error they report. Trusted: for a pattern without a backslash
/// the result depends on the pattern alone and is named [`glob_defect`].
#[verifier::external_body]
fn check_glob(pattern: &str) -> (r: Option<String>)
    ensures
        plain(pattern@) ==> opt_view(r) == glob_defect(pattern@),
{
    let built = globset::Glob::new(pattern)
        .and_then(|glob| globset::GlobSetBuilder::new().add(glob).build());
    built.err().map(|error| error.to_string())
}

/// Calls `globset::GlobSet::is_match` for the pattern. Trusted: for a
/// pattern and a path without a backslash the result depends on both alone
/// and is named [`glob_matches`]; a text that is no pattern matches nothing.
#[verifier::external_body]
fn match_glob(pattern: &str, path: &str) -> (r: bool)
    ensures
        plain(pattern@) && plain(path@) ==> r == glob_matches(pattern@, path@),
{
    let built = globset::Glob::new(pattern)
        .and_then(|glob| globset::GlobSetBuilder::new().add(glob).build());
    built.map(|set| set.is_match(path)).unwrap_or(false)
}

/// What kind of entry a directory holds.
#[derive(Clone, Copy, Debug, PartialEq, Eq, Structural)]
pub enum EntryKind {
    Dir,
    Symlink,
    File,
}

impl EntryKind {
    /// The name under which the kind is shown.
    pub open spec fn label(self) -> Seq<char> {
        match self {
            EntryKind::Dir => "dir"@,
            EntryKind::Symlink => "symlink"@,
            EntryKind::File => "file"@,
        }
    }

    /// The name under which the kind is shown.
    pub fn name(&self) -> (r: &'static str)
        ensures
            r@ == self.label(),
    {
        match self {
            EntryKind::Dir => "dir",
            EntryKind::Symlink => "symlink",
            EntryKind::File => "file",
        }
    }
}

/// One entry of a listing.
#[derive(Debug)]
pub struct Entry {
    pub name: String,
    pub kind: EntryKind,
}

/// One entry of a listing, as a mathematical value.
pub struct EntryV {
    pub name: Seq<char>,
    pub kind: EntryKind,
}

impl View for Entry {
    type V = EntryV;

    open spec fn view(&self) -> EntryV {
        EntryV { name: self.name@, kind: self.kind }
    }
}

/// A listing in progress as a mathematical value.
#[verifier::ext_equal]
pub struct ListingV {
    pub recursive: bool,
    pub glob: Option<Seq<char>>,
    pub max_entries: usize,
    pub entries: Seq<EntryV>,
    pub truncated: bool,
    /// Directories still to be read, below the listed one; the last comes
    /// first.
    pub queue: Seq<Seq<char>>,
}

/// The path of an entry below the listed directory.
pub open spec fn relative(prefix: Seq<char>, name: Seq<char>) -> Seq<char> {
    if prefix.len() == 0 {
        name
    } else {
        prefix + "/"@ + name
    }
}

/// The path of an entry below the listed directory.
pub fn relative_path(prefix: &str, name: &str) -> (r: String)
    ensures
        r@ == relative(prefix@, name@),
{
    if crate::text::chars_of(prefix).len() == 0 {
        name.to_owned()
    } else {
        wrapped(prefix, "/", name)
    }
}

/// The listing after an entry was seen, and whether the walk goes on.
pub open spec fn after_entry(l: ListingV, path: Seq<char>, kind: EntryKind, shown: bool) -> (
    ListingV,
    bool,
) {
    let queued = if kind is Dir && l.recursive {
        ListingV { queue: l.queue.push(path), ..l }
    } else {
        l
    };
    if !shown {
        (queued, true)
    } else if l.entries.len() >= l.max_entries {
        (ListingV { truncated: true, queue: Seq::empty(), ..queued }, false)
    } else {
        (ListingV { entries: l.entries.push(EntryV { name: path, kind }), ..queued }, true)
    }
}

/// The sorted entries with one more, behind those of the same name.
pub open spec fn placed(s: Seq<EntryV>, e: EntryV) -> Seq<EntryV>
    decreases s.len(),
{
    if s.len() == 0 || !lex_less(e.name, s.last().name) {
        s.push(e)
    } else {
        placed(s.drop_last(), e).push(s.last())
    }
}

/// The first `k` entries in the order of their names.
pub open spec fn sorted_entries(s: Seq<EntryV>, k: int) -> Seq<EntryV>
    decreases k,
{
    if k <= 0 {
        Seq::empty()
    } else {
        placed(sorted_entries(s, k - 1), s[k - 1])
    }
}

/// An entry as it is shown.
pub open spec fn entry_json(e: EntryV) -> Json {
    with(with(object(), "name"@, Json::Text(e.name)), "kind"@, Json::Text(e.kind.label()))
}

/// A listing as it is shown.
pub open spec fn listing_json(l: ListingV) -> Json {
    let sorted = sorted_entries(l.entries, l.entries.len() as int);
    let shown = with(
        object(),
        "entries"@,
        Json::List(Seq::new(sorted.len(), |i: int| entry_json(sorted[i]))),
    );
    if l.truncated {
        with(shown, "truncated"@, Json::Bool(true))
    } else {
        shown
    }
}

proof fn lemma_placed(s: Seq<EntryV>, e: EntryV)
    requires
        forall|i: int, j: int|
            0 <= i < j < s.len() ==> !lex_less((#[trigger] s[j]).name, (#[trigger] s[i]).name),
    ensures
        placed(s, e).len() == s.len() + 1,
        forall|i: int, j: int|
            0 <= i < j < placed(s, e).len() ==> !lex_less(
                (#[trigger] placed(s, e)[j]).name,
                (#[trigger] placed(s, e)[i]).name,
            ),
        placed(s, e).to_multiset() == s.to_multiset().insert(e),
        forall|i: int|
            0 <= i < placed(s, e).len() ==> #[trigger] placed(s, e)[i] == e || s.contains(
                placed(s, e)[i],
            ),
    decreases s.len(),
{
    let t = placed(s, e);
    s.to_multiset_ensures();
    if s.len() == 0 || !lex_less(e.name, s.last().name) {
        assert forall|i: int, j: int| 0 <= i < j < t.len() implies !lex_less(
            (#[trigger] t[j]).name,
            (#[trigger] t[i]).name,
        ) by {
            if j == s.len() {
                if lex_less(e.name, s[i].name) {
                    let last = s.last().name;
                    crate::text::lex_less_total(s[i].name, last);
                    if i < s.len() - 1 {
                        assert(!lex_less(s[s.len() - 1].name, s[i].name));
                        if lex_less(s[i].name, last) {
                            crate::text::lex_less_transitive(e.name, s[i].name, last);
                        }
                    }
                }
            }
        }
        assert forall|i: int| 0 <= i < t.len() implies #[trigger] t[i] == e || s.contains(t[i]) by {
            if i < s.len() {
                assert(s[i] == t[i]);
            }
        }
    } else {
        let front = s.drop_last();
        lemma_placed(front, e);
        let inner = placed(front, e);
        let last = s.last();
        assert forall|i: int| 0 <= i < inner.len() implies !lex_less(
            last.name,
            (#[trigger] inner[i]).name,
        ) by {
            if inner[i] == e {
                crate::text::lex_less_asymmetric(e.name, last.name);
            } else {
                let p = choose|p: int| 0 <= p < front.len() && front[p] == inner[i];
                assert(!lex_less(s[s.len() - 1].name, s[p].name));
            }
        }
        assert forall|i: int, j: int| 0 <= i < j < t.len() implies !lex_less(
            (#[trigger] t[j]).name,
            (#[trigger] t[i]).name,
        ) by {
            if j == inner.len() {
                assert(t[i] == inner[i]);
            } else {
                assert(t[i] == inner[i] && t[j] == inner[j]);
            }
        }
        inner.to_multiset_ensures();
        front.to_multiset_ensures();
        assert(front.push(last) =~= s);
        assert(t.to_multiset() =~= inner.to_multiset().insert(last));
        assert(s.to_multiset() =~= front.to_multiset().insert(last));
        assert(t.to_multiset() =~= s.to_multiset().insert(e));
        assert forall|i: int| 0 <= i < t.len() implies #[trigger] t[i] == e || s.contains(t[i]) by {
            if i < inner.len() {
                if inner[i] != e {
                    let p = choose|p: int| 0 <= p < front.len() && front[p] == inner[i];
                    assert(s[p] == t[i]);
                }
            } else {
                assert(s[s.len() - 1] == t[i]);
            }
        }
    }
}

/// A listing shows exactly the entries that were collected, in the order of
/// their names.
pub proof fn listings_are_sorted(s: Seq<EntryV>, k: int)
    requires
        0 <= k <= s.len(),
    ensures
        sorted_entries(s, k).len() == k,
        sorted_entries(s, k).to_multiset() == s.take(k).to_multiset(),
        forall|i: int, j: int|
            0 <= i < j < k ==> !lex_less(
                (#[trigger] sorted_entries(s, k)[j]).name,
                (#[trigger] sorted_entries(s, k)[i]).name,
            ),
    decreases k,
{
    if k > 0 {
        listings_are_sorted(s, k - 1);
        lemma_placed(sorted_entries(s, k - 1), s[k - 1]);
        assert(s.take(k) =~= s.take(k - 1).push(s[k - 1]));
        s.take(k - 1).to_multiset_ensures();
    } else {
        assert(s.take(0) =~= Seq::empty());
        assert(sorted_entries(s, k) =~= s.take(0));
    }
}

/// A listing in progress.
pub struct Listing {
    recursive: bool,
    glob: Option<String>,
    max_entries: usize,
    entries: Vec<Entry>,
    truncated: bool,
    queue: Vec<String>,
}

impl View for Listing {
    type V = ListingV;

    closed spec fn view(&self) -> ListingV {
        ListingV {
            recursive: self.recursive,
            glob: opt_view(self.glob),
            max_entries: self.max_entries,
            entries: views(self.entries@),
            truncated: self.truncated,
            queue: texts_view(self.queue@),
        }
    }
}

impl Listing {
    /// Begins the listing that the input asks for. A `glob` that is no
    /// pattern is an error.
    pub fn begin(executor: &FsExecutor, input: &Value) -> (r: Result<Self, FsError>)
        ensures
            match r {
                Ok(l) => l@ == (ListingV {
                    recursive: is_set(input@, "recursive"@),
                    glob: text_field(input@, "glob"@),
                    max_entries: executor.max_entries,
                    entries: Seq::empty(),
                    truncated: false,
                    queue: seq![Seq::empty()],
                }),
                Err(e) => text_field(input@, "glob"@) is Some && e@ is InvalidGlob,
            },
            match text_field(input@, "glob"@) {
                Some(g) if plain(g) => match glob_defect(g) {
                    Some(m) => r is Err && r->Err_0@ == FsErrorV::InvalidGlob(m),
                    None => r is Ok,
                },
                Some(_) => true,
                None => r is Ok,
            },
    {
        let glob: Option<String> = match input.text_at("glob") {
            Some(pattern) => {
                if let Some(message) = check_glob(pattern) {
                    return Err(FsError::InvalidGlob(message));
                }
                Some(pattern.to_owned())
            },
            None => None,
        };
        let mut queue: Vec<String> = Vec::new();
        queue.push(String::new());
        let l = Listing {
            recursive: input.is_set("recursive"),
            glob,
            max_entries: executor.max_entries,
            entries: Vec::new(),
            truncated: false,
            queue,
        };
        assert(l@.entries =~= Seq::empty());
        assert(l@.queue =~= seq![Seq::empty()]);
        Ok(l)
    }

    /// The next directory to read, below the listed one.
    pub fn next_dir(&mut self) -> (r: Option<String>)
        ensures
            match r {
                Some(d) => {
                    &&& old(self)@.queue.len() > 0
                    &&& d@ == old(self)@.queue.last()
                    &&& final(self)@ == (ListingV {
                        queue: old(self)@.queue.drop_last(),
                        ..old(self)@
                    })
                },
                None => old(self)@.queue.len() == 0 && final(self)@ == old(self)@,
            },
    {
        let r = self.queue.pop();
        proof {
            if old(self)@.queue.len() > 0 {
                assert(self@.queue =~= old(self)@.queue.drop_last());
                assert(self@ =~= (ListingV { queue: old(self)@.queue.drop_last(), ..old(self)@ }));
            } else {
                assert(self@ =~= old(self)@);
            }
        }
        r
    }

    /// Whether the listing shows the path. Nothing is said of a pattern or
    /// path that holds a backslash.
    pub fn shows(&self, path: &str) -> (r: bool)
        ensures
            match self@.glob {
                Some(g) => plain(g) && plain(path@) ==> r == glob_matches(g, path@),
                None => r,
            },
    {
        match &self.glob {
            Some(pattern) => match_glob(pattern.as_str(), path),
            None => true,
        }
    }

    /// Takes in an entry; says whether the walk goes on.
    pub fn visit(&mut self, path: &str, kind: EntryKind, shown: bool) -> (r: bool)
        ensures
            (final(self)@, r) == after_entry(old(self)@, path@, kind, shown),
    {
        let ghost l = self@;
        if kind == EntryKind::Dir && self.recursive {
            self.queue.push(path.to_owned());
            assert(self@.queue =~= l.queue.push(path@));
        }
        let ghost queued = self@;
        if !shown {
            assert(self@ =~= after_entry(l, path@, kind, shown).0);
            return true;
        }
        if self.entries.len() >= self.max_entries {
            self.truncated = true;
            self.queue = Vec::new();
            assert(self@.queue =~= Seq::empty());
            assert(self@ =~= after_entry(l, path@, kind, shown).0);
            return false;
        }
        self.entries.push(Entry { name: path.to_owned(), kind });
        proof {
            assert(self@.entries =~= l.entries.push(EntryV { name: path@, kind }));
            assert(self@ =~= after_entry(l, path@, kind, shown).0);
        }
        true
    }

    /// Takes in an entry of a directory; says whether the walk goes on.
    pub fn add(&mut self, prefix: &str, name: &str, kind: EntryKind) -> (r: bool)
        ensures
            ({
                let path = relative(prefix@, name@);
                let l = old(self)@;
                match l.glob {
                    None => (final(self)@, r) == after_entry(l, path, kind, true),
                    Some(g) => if plain(g) && plain(path) {
                        (final(self)@, r) == after_entry(l, path, kind, glob_matches(g, path))
                    } else {
                        exists|shown: bool|
                            (final(self)@, r) == #[trigger] after_entry(l, path, kind, shown)
                    },
                }
            }),
    {
        let path = relative_path(prefix, name);
        let shown = self.shows(path.as_str());
        self.visit(path.as_str(), kind, shown)
    }

    /// The listing as it is shown.
    pub fn finish(self) -> (r: Value)
        ensures
            r@ == listing_json(self@),
    {
        let ghost l = self@;
        let entries = self.entries;
        let truncated = self.truncated;
        let ghost all = l.entries;
        let mut sorted: Vec<Entry> = Vec::new();
        let mut k: usize = 0;
        assert(views(sorted@) =~= Seq::empty());
        while k < entries.len()
            invariant
                k <= entries@.len(),
                all == views(entries@),
                views(sorted@) == sorted_entries(all, k as int),
            decreases entries.len() - k,
        {
            assert(all[k as int] == entries@[k as int]@);
            place(&mut sorted, Entry { name: entries[k].name.clone(), kind: entries[k].kind });
            k = k + 1;
        }
        let ghost ss = views(sorted@);
        let mut items: Vec<Value> = Vec::new();
        let mut i: usize = 0;
        while i < sorted.len()
            invariant
                i <= sorted@.len(),
                ss == views(sorted@),
                items@.len() == i,
                forall|j: int| 0 <= j < i ==> (#[trigger] items@[j])@ == entry_json(ss[j]),
            decreases sorted.len() - i,
        {
            let e = &sorted[i];
            assert(ss[i as int] == e@);
            items.push(
                Value::empty_object().with("name", Value::text(e.name.as_str())).with(
                    "kind",
                    Value::text(e.kind.name()),
                ),
            );
            i = i + 1;
        }
        proof {
            let want = Seq::new(ss.len(), |i: int| entry_json(ss[i]));
            assert(values_view(items@) =~= want);
        }
        let shown = Value::empty_object().with("entries", Value::Array(items));
        if truncated {
            shown.with("truncated", Value::Bool(true))
        } else {
            shown
        }
    }
}

fn place(sorted: &mut Vec<Entry>, e: Entry)
    ensures
        views(final(sorted)@) == placed(views(old(sorted)@), e@),
{
    let ghost all = views(sorted@);
    let ghost ev = e@;
    let mut at: usize = sorted.len();
    assert(all.take(at as int) =~= all);
    assert(all.skip(at as int) =~= Seq::empty());
    assert(placed(all, ev) =~= placed(all.take(at as int), ev) + all.skip(at as int));
    while at > 0 && text_less(e.name.as_str(), sorted[at - 1].name.as_str())
        invariant
            at <= sorted@.len(),
            all == views(sorted@),
            ev == e@,
            placed(all, ev) == placed(all.take(at as int), ev) + all.skip(at as int),
        decreases at,
    {
        proof {
            let front = all.take(at as int);
            assert(front.last() == sorted@[at - 1]@);
            assert(front.drop_last() =~= all.take(at - 1));
            assert(placed(front, ev) == placed(front.drop_last(), ev).push(front.last()));
            assert(placed(all.take(at - 1), ev).push(front.last()) + all.skip(at as int)
                =~= placed(all.take(at - 1), ev) + all.skip(at - 1));
        }
        at = at - 1;
    }
    proof {
        let front = all.take(at as int);
        if at > 0 {
            assert(front.last() == sorted@[at - 1]@);
        }
        assert(placed(front, ev) == front.push(ev));
    }
    sorted.insert(at, e);
    assert(views(sorted@) =~= all.take(at as int).push(ev) + all.skip(at as int));
}

} // verus!
