//! The `.index` file that gives every item in a directory a stable id.
//!
//! Each directory carries a `.index` listing its entries one per line. An item's
//! id is its line number, counting from one. Deleting an item blanks its line
//! rather than removing it, so ids are never handed out again.

use vstd::prelude::*;

use crate::text::texts;

use crate::text::{chars_of, chars_eq, copy_string, joined_lines, line_ranges, lines, push_char, push_str, ranges_within, slice_vec, spans, string_of, trim, trim_range};

verus! {

/// Filename of the per-directory index.
pub const INDEX_FILE: &'static str = ".index";

/// A directory's index: entry names by id, with gaps where items were removed.
#[derive(Debug)]
pub struct Index {
    entries: Vec<Option<String>>,
}

pub open spec fn entry_view(e: Option<String>) -> Option<Seq<char>> {
    match e {
        Some(s) => Some(s@),
        None => None,
    }
}

impl View for Index {
    type V = Seq<Option<Seq<char>>>;

    closed spec fn view(&self) -> Seq<Option<Seq<char>>> {
        self.entries@.map_values(|e: Option<String>| entry_view(e))
    }
}

/// Drop blank entries from the end: they carry no ids worth keeping.
pub open spec fn drop_trailing_blanks(e: Seq<Option<Seq<char>>>) -> Seq<Option<Seq<char>>>
    decreases e.len(),
{
    if e.len() > 0 && e.last() is None {
        drop_trailing_blanks(e.drop_last())
    } else {
        e
    }
}

/// An index never ends in a blank line.
pub open spec fn index_wf(e: Seq<Option<Seq<char>>>) -> bool {
    e.len() == 0 || e.last() is Some
}

/// One line of `.index` read as an entry: its trimmed text, or a gap.
pub open spec fn entry_of_line(line: Seq<char>) -> Option<Seq<char>> {
    if trim(line).len() == 0 {
        None
    } else {
        Some(trim(line))
    }
}

/// The entries a `.index` file lists.
pub open spec fn parse_entries(raw: Seq<char>) -> Seq<Option<Seq<char>>> {
    drop_trailing_blanks(lines(raw).map_values(|l: Seq<char>| entry_of_line(l)))
}

pub open spec fn entry_text(e: Option<Seq<char>>) -> Seq<char> {
    match e {
        Some(s) => s,
        None => seq![],
    }
}

/// The file text of an index: one line per entry, blank for a gap.
pub open spec fn render_entries(e: Seq<Option<Seq<char>>>) -> Seq<char>
    decreases e.len(),
{
    if e.len() == 0 {
        seq![]
    } else {
        render_entries(e.drop_last()) + entry_text(e.last()) + seq!['\n']
    }
}

/// The name filed under `id`.
pub open spec fn name_at(e: Seq<Option<Seq<char>>>, id: int) -> Option<Seq<char>> {
    if 1 <= id <= e.len() {
        e[id - 1]
    } else {
        None
    }
}

/// The position of the first entry named `name`, scanning from `i`.
pub open spec fn position_from(e: Seq<Option<Seq<char>>>, name: Seq<char>, i: int) -> Option<int>
    decreases e.len() - i,
{
    if i < 0 || i >= e.len() {
        None
    } else if e[i] == Some(name) {
        Some(i)
    } else {
        position_from(e, name, i + 1)
    }
}

/// The id of `name`: one past its first position.
pub open spec fn id_for(e: Seq<Option<Seq<char>>>, name: Seq<char>) -> Option<int> {
    match position_from(e, name, 0) {
        Some(p) => Some(p + 1),
        None => None,
    }
}

/// Live entries as `(id, name)`, in id order.
pub open spec fn live_entries(e: Seq<Option<Seq<char>>>) -> Seq<(int, Seq<char>)>
    decreases e.len(),
{
    if e.len() == 0 {
        seq![]
    } else {
        live_entries(e.drop_last()) + match e.last() {
            Some(n) => seq![(e.len() as int, n)],
            None => seq![],
        }
    }
}

pub proof fn lemma_position_facts(e: Seq<Option<Seq<char>>>, name: Seq<char>, i: int)
    requires
        0 <= i,
    ensures
        position_from(e, name, i) matches Some(p) ==> i <= p < e.len() && e[p] == Some(name)
            && forall|j: int| i <= j < p ==> e[j] != Some(name),
        position_from(e, name, i) is None ==> forall|j: int| i <= j < e.len() ==> e[j] != Some(
            name,
        ),
    decreases e.len() - i,
{
    if i < e.len() && e[i] != Some(name) {
        lemma_position_facts(e, name, i + 1);
    }
}

pub proof fn lemma_drop_trailing_blanks(e: Seq<Option<Seq<char>>>)
    ensures
        index_wf(drop_trailing_blanks(e)),
        drop_trailing_blanks(e).len() <= e.len(),
        drop_trailing_blanks(e) == e.take(drop_trailing_blanks(e).len() as int),
        forall|j: int| drop_trailing_blanks(e).len() <= j < e.len() ==> e[j] is None,
    decreases e.len(),
{
    if e.len() > 0 && e.last() is None {
        lemma_drop_trailing_blanks(e.drop_last());
        let d = drop_trailing_blanks(e.drop_last());
        assert(e.drop_last().take(d.len() as int) =~= e.take(d.len() as int));
        assert forall|j: int| d.len() <= j < e.len() implies e[j] is None by {
            if j < e.len() - 1 {
                assert(e.drop_last()[j] == e[j]);
            }
        }
    } else {
        assert(e.take(e.len() as int) =~= e);
    }
}

pub proof fn lemma_drop_trailing_keeps_names(e: Seq<Option<Seq<char>>>, id: int)
    ensures
        name_at(drop_trailing_blanks(e), id) == name_at(e, id),
{
    lemma_drop_trailing_blanks(e);
    let d = drop_trailing_blanks(e);
    if 1 <= id <= d.len() {
        assert(d[id - 1] == e.take(d.len() as int)[id - 1]);
    }
}

impl Index {
    proof fn lemma_view(&self)
        ensures
            self@.len() == self.entries@.len(),
            forall|i: int|
                0 <= i < self@.len() ==> #[trigger] self@[i] == entry_view(self.entries@[i]),
    {
    }

    /// An index with no entries.
    pub fn new() -> (r: Index)
        ensures
            r@ == Seq::<Option<Seq<char>>>::empty(),
    {
        let r = Index { entries: Vec::new() };
        assert(r@ =~= Seq::<Option<Seq<char>>>::empty());
        r
    }

    /// Read the text of a `.index` file.
    pub fn parse(raw: &str) -> (r: Index)
        ensures
            r@ == parse_entries(raw@),
    {
        let text = chars_of(raw);
        let ranges = line_ranges(&text);
        let mut entries: Vec<Option<String>> = Vec::new();
        let ghost parsed = lines(text@).map_values(|l: Seq<char>| entry_of_line(l));
        for k in 0..ranges.len()
            invariant
                spans(text@, ranges@) == lines(text@),
                ranges_within(ranges@, text@.len() as int),
                parsed == lines(text@).map_values(|l: Seq<char>| entry_of_line(l)),
                entries@.map_values(|e: Option<String>| entry_view(e)) == parsed.take(k as int),
        {
            let (a, b) = ranges[k];
            assert(ranges@[k as int].0 <= ranges@[k as int].1 <= text@.len());
            let (x, y) = trim_range(&text, a, b);
            let ghost line = text@.subrange(a as int, b as int);
            assert(spans(text@, ranges@)[k as int] == line);
            let e = if x == y {
                None
            } else {
                Some(string_of(&slice_vec(&text, x, y)))
            };
            assert(entry_view(e) == entry_of_line(line));
            let ghost old_entries = entries@;
            entries.push(e);
            proof {
                assert(entries@ == old_entries.push(e));
                assert(parsed[k as int] == entry_of_line(lines(text@)[k as int]));
                assert(entries@.map_values(|e: Option<String>| entry_view(e)) =~= old_entries.map_values(
                    |e: Option<String>| entry_view(e),
                ).push(entry_view(e)));
                assert(parsed.take(k + 1) =~= parsed.take(k as int).push(parsed[k as int]));
            }
        }
        assert(parsed.take(ranges@.len() as int) =~= parsed);
        let mut r = Index { entries };
        r.drop_trailing();
        r
    }

    /// Pop blank entries off the end.
    fn drop_trailing(&mut self)
        ensures
            final(self)@ == drop_trailing_blanks(old(self)@),
            index_wf(final(self)@),
    {
        proof {
            lemma_drop_trailing_blanks(self@);
        }
        while self.entries.len() > 0 && self.entries[self.entries.len() - 1].is_none()
            invariant
                drop_trailing_blanks(self@) == drop_trailing_blanks(old(self)@),
            decreases self.entries@.len(),
        {
            let ghost before = self@;
            self.entries.pop();
            proof {
                assert(self@ =~= before.drop_last());
            }
        }
        proof {
            lemma_drop_trailing_blanks(self@);
        }
    }

    /// The text of the `.index` file.
    pub fn render(&self) -> (r: String)
        ensures
            r@ == render_entries(self@),
    {
        let mut out = String::new();
        let mut i: usize = 0;
        while i < self.entries.len()
            invariant
                i <= self@.len(),
                out@ == render_entries(self@.take(i as int)),
            decreases self@.len() - i,
        {
            proof {
                self.lemma_view();
            }
            match &self.entries[i] {
                Some(name) => push_str(&mut out, name.as_str()),
                None => {},
            }
            push_char(&mut out, '\n');
            proof {
                assert(self@.take(i + 1).drop_last() =~= self@.take(i as int));
            }
            i += 1;
        }
        proof {
            assert(self@.take(self@.len() as int) =~= self@);
        }
        out
    }

    /// The entry name for `id`, if that id is live.
    pub fn name_of(&self, id: usize) -> (r: Option<&str>)
        ensures
            r matches Some(n) ==> name_at(self@, id as int) == Some(n@),
            r is None ==> name_at(self@, id as int) is None,
    {
        proof {
            self.lemma_view();
        }
        if id == 0 || id > self.entries.len() {
            return None;
        }
        match &self.entries[id - 1] {
            Some(name) => Some(name.as_str()),
            None => None,
        }
    }

    /// The position of the first entry named `name`.
    fn position(&self, name: &[char]) -> (r: Option<usize>)
        ensures
            r matches Some(p) ==> position_from(self@, name@, 0) == Some(p as int),
            r is None ==> position_from(self@, name@, 0) is None,
    {
        let mut i: usize = 0;
        while i < self.entries.len()
            invariant
                position_from(self@, name@, 0) == position_from(self@, name@, i as int),
            decreases self@.len() - i,
        {
            proof {
                self.lemma_view();
            }
            let hit = match &self.entries[i] {
                Some(entry) => {
                    let c = chars_of(entry.as_str());
                    chars_eq(&c, name)
                },
                None => false,
            };
            if hit {
                return Some(i);
            }
            i += 1;
        }
        None
    }

    /// The id of `name`, if present.
    pub fn id_of(&self, name: &str) -> (r: Option<usize>)
        ensures
            r matches Some(id) ==> id_for(self@, name@) == Some(id as int),
            r is None ==> id_for(self@, name@) is None,
    {
        let n = chars_of(name);
        proof {
            lemma_position_facts(self@, n@, 0);
            self.lemma_view();
        }
        match self.position(&n) {
            Some(p) => {
                let len = self.entries.len();
                assert(p < len);
                Some(p + 1)
            },
            None => None,
        }
    }

    /// Live entries as `(id, name)`, in id order.
    pub fn entries(&self) -> (r: Vec<(usize, String)>)
        ensures
            r@.map_values(|p: (usize, String)| (p.0 as int, p.1@)) == live_entries(self@),
    {
        let mut r: Vec<(usize, String)> = Vec::new();
        let mut i: usize = 0;
        while i < self.entries.len()
            invariant
                i <= self@.len(),
                r@.map_values(|p: (usize, String)| (p.0 as int, p.1@)) == live_entries(
                    self@.take(i as int),
                ),
            decreases self@.len() - i,
        {
            proof {
                self.lemma_view();
                assert(self@.take(i + 1).drop_last() =~= self@.take(i as int));
            }
            match &self.entries[i] {
                Some(name) => {
                    r.push((i + 1, copy_string(name)));
                },
                None => {},
            }
            proof {
                assert(r@.map_values(|p: (usize, String)| (p.0 as int, p.1@)) =~= live_entries(
                    self@.take(i + 1),
                ));
            }
            i += 1;
        }
        proof {
            assert(self@.take(self@.len() as int) =~= self@);
        }
        r
    }

    /// How many ids are live.
    pub fn len(&self) -> (r: usize)
        ensures
            r == live_entries(self@).len(),
    {
        let mut n: usize = 0;
        let mut i: usize = 0;
        while i < self.entries.len()
            invariant
                i <= self@.len(),
                n == live_entries(self@.take(i as int)).len(),
                n <= i,
            decreases self@.len() - i,
        {
            proof {
                self.lemma_view();
                assert(self@.take(i + 1).drop_last() =~= self@.take(i as int));
            }
            if self.entries[i].is_some() {
                n += 1;
            }
            i += 1;
        }
        proof {
            assert(self@.take(self@.len() as int) =~= self@);
        }
        n
    }

    pub fn is_empty(&self) -> (r: bool)
        ensures
            r == (live_entries(self@).len() == 0),
    {
        self.len() == 0
    }

    /// Append `name` and return its new id. An existing entry keeps its id.
    pub fn add(&mut self, name: &str) -> (r: usize)
        ensures
            match id_for(old(self)@, name@) {
                Some(id) => r == id && final(self)@ == old(self)@,
                None => r == old(self)@.len() + 1 && final(self)@ == old(self)@.push(Some(name@)),
            },
    {
        if let Some(id) = self.id_of(name) {
            return id;
        }
        let ghost before = self@;
        self.entries.push(Some(name.to_owned()));
        proof {
            assert(self@ =~= before.push(Some(name@)));
        }
        self.entries.len()
    }

    /// Blank the line holding `name`, retiring its id.
    pub fn remove(&mut self, name: &str) -> (r: Option<usize>)
        ensures
            match id_for(old(self)@, name@) {
                Some(id) => r == Some(id as usize) && final(self)@ == old(self)@.update(id - 1, None),
                None => r is None && final(self)@ == old(self)@,
            },
    {
        let id = match self.id_of(name) {
            Some(id) => id,
            None => return None,
        };
        proof {
            lemma_position_facts(self@, name@, 0);
        }
        let ghost before = self@;
        self.entries.set(id - 1, None);
        proof {
            assert(self@ =~= before.update(id - 1, None));
        }
        Some(id)
    }

    /// Point `name`'s id at `new_name`, preserving the id across a rename.
    pub fn rename(&mut self, name: &str, new_name: &str) -> (r: Option<usize>)
        ensures
            match id_for(old(self)@, name@) {
                Some(id) => r == Some(id as usize) && final(self)@ == old(self)@.update(
                    id - 1,
                    Some(new_name@),
                ),
                None => r is None && final(self)@ == old(self)@,
            },
    {
        let id = match self.id_of(name) {
            Some(id) => id,
            None => return None,
        };
        proof {
            lemma_position_facts(self@, name@, 0);
        }
        let ghost before = self@;
        self.entries.set(id - 1, Some(new_name.to_owned()));
        proof {
            assert(self@ =~= before.update(id - 1, Some(new_name@)));
        }
        Some(id)
    }
}

/// The index file for a directory.
/// The entries after adding, in order, each name not yet listed.
pub open spec fn added_all(e: Seq<Option<Seq<char>>>, names: Seq<Seq<char>>) -> Seq<Option<Seq<char>>>
    decreases names.len(),
{
    if names.len() == 0 {
        e
    } else {
        let before = added_all(e, names.drop_last());
        if id_for(before, names.last()) is Some {
            before
        } else {
            before.push(Some(names.last()))
        }
    }
}

/// The live entries whose names are not among `present`.
pub open spec fn missing_entries(e: Seq<Option<Seq<char>>>, present: Seq<Seq<char>>) -> Seq<(int, Seq<char>)> {
    live_entries(e).filter(|p: (int, Seq<char>)| !present.contains(p.1))
}

impl Index {
    /// Index every name not indexed yet, in the order given (the caller
    /// passes the directory's visible entries, sorted). Whether anything was
    /// added.
    pub fn reconcile(&mut self, names: &Vec<String>) -> (r: bool)
        ensures
            final(self)@ == added_all(old(self)@, crate::text::texts(names@)),
            r == (final(self)@.len() != old(self)@.len()),
    {
        let ghost start = self@;
        let ghost ns = crate::text::texts(names@);
        let mut changed = false;
        for i in 0..names.len()
            invariant
                ns == crate::text::texts(names@),
                self@ == added_all(start, ns.take(i as int)),
                self@.len() >= start.len(),
                changed == (self@.len() != start.len()),
        {
            assert(ns.take(i + 1).drop_last() =~= ns.take(i as int));
            assert(ns.take(i + 1).last() == names@[i as int]@);
            let before = self.len_entries();
            self.add(names[i].as_str());
            if self.len_entries() != before {
                changed = true;
            }
        }
        assert(ns.take(names@.len() as int) =~= ns);
        changed
    }

    fn len_entries(&self) -> (r: usize)
        ensures
            r == self@.len(),
    {
        proof {
            self.lemma_view();
        }
        self.entries.len()
    }

    /// Live entries whose files are gone: those whose names are not among
    /// `present`, the names the directory holds.
    pub fn missing(&self, present: &Vec<String>) -> (r: Vec<(usize, String)>)
        ensures
            r@.map_values(|p: (usize, String)| (p.0 as int, p.1@)) == missing_entries(
                self@,
                crate::text::texts(present@),
            ),
    {
        let live = self.entries();
        let ghost lv = live@.map_values(|p: (usize, String)| (p.0 as int, p.1@));
        let ghost ps = crate::text::texts(present@);
        let ghost keep = |p: (int, Seq<char>)| !ps.contains(p.1);
        let mut out: Vec<(usize, String)> = Vec::new();
        proof {
            reveal(Seq::filter);
            assert(lv.take(0).filter(keep) =~= Seq::<(int, Seq<char>)>::empty());
        }
        for i in 0..live.len()
            invariant
                lv == live@.map_values(|p: (usize, String)| (p.0 as int, p.1@)),
                ps == crate::text::texts(present@),
                keep == (|p: (int, Seq<char>)| !ps.contains(p.1)),
                out@.map_values(|p: (usize, String)| (p.0 as int, p.1@)) == lv.take(i as int).filter(keep),
        {
            let name = chars_of(live[i].1.as_str());
            let mut found = false;
            for j in 0..present.len()
                invariant
                    i < live@.len(),
                    name@ == live@[i as int].1@,
                    ps == crate::text::texts(present@),
                    found == exists|k: int| 0 <= k < j && ps[k] == name@,
            {
                assert(ps[j as int] == present@[j as int]@);
                if !found && chars_eq(&chars_of(present[j].as_str()), &name) {
                    found = true;
                }
            }
            proof {
                reveal(Seq::filter);
                assert(lv.take(i + 1).drop_last() =~= lv.take(i as int));
                assert(lv.take(i + 1).last() == (live@[i as int].0 as int, live@[i as int].1@));
                if found {
                    let k = choose|k: int| 0 <= k < present@.len() && ps[k] == name@;
                    assert(ps.contains(name@));
                } else {
                    assert(!ps.contains(name@));
                }
            }
            if !found {
                let ghost before = out@;
                let entry = (live[i].0, copy_string(&live[i].1));
                out.push(entry);
                assert(out@.map_values(|p: (usize, String)| (p.0 as int, p.1@)) =~= before.map_values(
                    |p: (usize, String)| (p.0 as int, p.1@),
                ).push((entry.0 as int, entry.1@)));
            }
        }
        assert(lv.take(live@.len() as int) =~= lv);
        out
    }
}

pub fn index_path(dir: &str) -> (r: String)
    ensures
        r@ == crate::paths::join(dir@, INDEX_FILE@),
{
    crate::paths::join_str(dir, INDEX_FILE)
}

// ───────────────────────── laws ─────────────────────────

/// A name an index line can hold: non-empty, already trimmed, on one line.
pub open spec fn storable_name(n: Seq<char>) -> bool {
    n.len() > 0 && trim(n) == n && !n.contains('\n')
}

/// Every name in the entries can be written to a line and read back.
pub open spec fn storable(e: Seq<Option<Seq<char>>>) -> bool {
    forall|i: int| 0 <= i < e.len() ==> (#[trigger] e[i] matches Some(n) ==> storable_name(n))
}

proof fn lemma_render_lines(e: Seq<Option<Seq<char>>>)
    requires
        storable(e),
    ensures
        lines(render_entries(e)) == e.map_values(|o: Option<Seq<char>>| entry_text(o)),
    decreases e.len(),
{
    if e.len() == 0 {
        assert(lines(render_entries(e)) =~= Seq::<Seq<char>>::empty());
        assert(e.map_values(|o: Option<Seq<char>>| entry_text(o)) =~= Seq::<Seq<char>>::empty());
    } else {
        let d = e.drop_last();
        assert forall|i: int| 0 <= i < d.len() implies (#[trigger] d[i] matches Some(n)
            ==> storable_name(n)) by {
            assert(d[i] == e[i]);
        }
        lemma_render_lines(d);
        let x = entry_text(e.last());
        assert(e[e.len() - 1] == e.last());
        assert(!x.contains('\n'));
        let a = render_entries(d);
        if a.len() > 0 {
            assert(a.last() == '\n');
        }
        assert(render_entries(e) =~= a + x.push('\n'));
        crate::text::lemma_lines_append(a, x.push('\n'));
        crate::text::lemma_lines_single(x);
        if x.len() > 0 {
            // A stored name is trimmed, so it does not end in a carriage return.
            assert(x.last() != '\r') by {
                let n = x;
                crate::text::lemma_trail_ws_bound(n);
                if n.last() == '\r' {
                    assert(crate::text::is_ws(n.last()));
                    assert(crate::text::trail_ws(n) >= 1);
                    assert(trim(n).len() < n.len()) by {
                        crate::text::lemma_lead_ws_bound(n);
                        let t = crate::text::trim_start(n);
                        if t.len() > 0 {
                            assert(t.last() == n.last());
                            assert(crate::text::trail_ws(t) >= 1);
                            crate::text::lemma_trail_ws_bound(t);
                        }
                    }
                }
            }
        }
        assert(crate::text::strip_cr(x) == x);
        assert(e.map_values(|o: Option<Seq<char>>| entry_text(o)) =~= d.map_values(
            |o: Option<Seq<char>>| entry_text(o),
        ).push(x));
    }
}

/// Writing an index out and reading it back gives the same entries: every
/// id keeps its name, and every retired id stays retired.
pub proof fn lemma_index_round_trip(e: Seq<Option<Seq<char>>>)
    requires
        index_wf(e),
        storable(e),
    ensures
        parse_entries(render_entries(e)) == e,
{
    lemma_render_lines(e);
    let m = lines(render_entries(e)).map_values(|l: Seq<char>| entry_of_line(l));
    assert forall|i: int| 0 <= i < e.len() implies m[i] == e[i] by {
        match e[i] {
            Some(n) => {
                assert(storable_name(n));
            },
            None => {
                assert(entry_text(e[i]) =~= Seq::<char>::empty());
                assert(trim(Seq::<char>::empty()) =~= Seq::<char>::empty());
            },
        }
    }
    assert(m =~= e);
    if e.len() > 0 {
        assert(e.last() is Some);
    }
}

proof fn lemma_render_joined(e: Seq<Option<Seq<char>>>)
    ensures
        render_entries(e) == joined_lines(e.map_values(|o: Option<Seq<char>>| entry_text(o))),
    decreases e.len(),
{
    if e.len() > 0 {
        lemma_render_joined(e.drop_last());
        let t = e.map_values(|o: Option<Seq<char>>| entry_text(o));
        assert(t.drop_last() =~= e.drop_last().map_values(|o: Option<Seq<char>>| entry_text(o)));
        assert(t.last() == entry_text(e.last()));
    }
}

proof fn lemma_live_ignores_trailing_blanks(e: Seq<Option<Seq<char>>>)
    ensures
        live_entries(drop_trailing_blanks(e)) == live_entries(e),
    decreases e.len(),
{
    if e.len() > 0 && e.last() is None {
        lemma_live_ignores_trailing_blanks(e.drop_last());
        assert(live_entries(e) =~= live_entries(e.drop_last()));
    }
}

/// Ids are line numbers: the name filed under an id is the trimmed text of
/// that line of the file, none for a blank line or a line past the end, and
/// the live entries are exactly the non-blank lines.
pub proof fn lemma_parse_reads_lines(raw: Seq<char>, id: int)
    ensures
        name_at(parse_entries(raw), id) == (if 1 <= id <= lines(raw).len() {
            entry_of_line(lines(raw)[id - 1])
        } else {
            None
        }),
        live_entries(parse_entries(raw)) == live_entries(
            lines(raw).map_values(|l: Seq<char>| entry_of_line(l)),
        ),
{
    let m = lines(raw).map_values(|l: Seq<char>| entry_of_line(l));
    lemma_drop_trailing_keeps_names(m, id);
    lemma_live_ignores_trailing_blanks(m);
}

/// A file whose lines are all trimmed, each closed by a plain newline (no
/// carriage return before it), the last of them not blank, reads and writes
/// back to the same text.
pub proof fn lemma_parse_render_round_trip(raw: Seq<char>)
    requires
        raw.len() == 0 || raw.last() == '\n',
        crate::text::no_crlf(raw),
        forall|i: int| 0 <= i < lines(raw).len() ==> trim(#[trigger] lines(raw)[i]) == lines(raw)[i],
        lines(raw).len() == 0 || lines(raw).last().len() > 0,
    ensures
        render_entries(parse_entries(raw)) == raw,
{
    let ls = lines(raw);
    let m = ls.map_values(|l: Seq<char>| entry_of_line(l));
    if ls.len() > 0 {
        assert(trim(ls.last()) == ls.last());
        assert(m.last() == entry_of_line(ls[ls.len() - 1]));
        assert(m.last() is Some);
    } else {
        assert(m.len() == 0);
    }
    assert(drop_trailing_blanks(m) == m);
    lemma_render_joined(m);
    let t = m.map_values(|o: Option<Seq<char>>| entry_text(o));
    assert forall|i: int| 0 <= i < ls.len() implies t[i] == ls[i] by {
        assert(trim(ls[i]) == ls[i]);
        if trim(ls[i]).len() == 0 {
            assert(ls[i] =~= Seq::<char>::empty());
        }
    }
    assert(t =~= ls);
    crate::text::lemma_joined_lines_of(raw);
}

/// What the parser reads from any text can be written back: its names are
/// non-empty, trimmed and on one line.
pub proof fn lemma_parsed_is_storable(raw: Seq<char>)
    ensures
        storable(parse_entries(raw)),
        index_wf(parse_entries(raw)),
{
    let m = lines(raw).map_values(|l: Seq<char>| entry_of_line(l));
    lemma_drop_trailing_blanks(m);
    let d = drop_trailing_blanks(m);
    assert forall|i: int| 0 <= i < d.len() implies (#[trigger] d[i] matches Some(n) ==> storable_name(n)) by {
        assert(d[i] == m.take(d.len() as int)[i]);
        assert(d[i] == m[i]);
        let l = lines(raw)[i];
        if trim(l).len() > 0 {
            crate::text::lemma_trim_idempotent(l);
            crate::text::lemma_line_has_no_newline(raw, i);
            crate::text::lemma_trim_chars(l, '\n');
        }
    }
}

/// Removing an entry retires exactly its id: every other id answers as
/// before, nothing shifts.
pub proof fn lemma_remove_keeps_other_ids(e: Seq<Option<Seq<char>>>, id: int, other: int)
    requires
        1 <= id <= e.len(),
        other != id,
    ensures
        name_at(e.update(id - 1, None), other) == name_at(e, other),
        name_at(e.update(id - 1, None), id) is None,
{
}

/// A retired id is never handed out again: after an entry is removed, adding
/// any name (the removed one too) gives another id and leaves the retired
/// one blank.
pub proof fn lemma_removed_id_never_reused(e: Seq<Option<Seq<char>>>, removed: Seq<char>, name: Seq<char>)
    requires
        id_for(e, removed) is Some,
    ensures
        ({
            let id = id_for(e, removed)->Some_0;
            let gone = e.update(id - 1, None);
            let after = match id_for(gone, name) {
                Some(_) => gone,
                None => gone.push(Some(name)),
            };
            let given = match id_for(gone, name) {
                Some(k) => k,
                None => gone.len() + 1int,
            };
            &&& given != id
            &&& name_at(after, id) is None
        }),
{
    lemma_position_facts(e, removed, 0);
    let id = id_for(e, removed)->Some_0;
    let gone = e.update(id - 1, None);
    lemma_add_never_reuses_a_gap(gone, name, id);
}

/// Adding never takes over a retired id that lies inside the index: the new
/// entry's id is past the end, and the gap stays a gap.
pub proof fn lemma_add_never_reuses_a_gap(e: Seq<Option<Seq<char>>>, name: Seq<char>, gap: int)
    requires
        1 <= gap <= e.len(),
        name_at(e, gap) is None,
    ensures
        ({
            let after = match id_for(e, name) {
                Some(_) => e,
                None => e.push(Some(name)),
            };
            let id = match id_for(e, name) {
                Some(k) => k,
                None => e.len() + 1int,
            };
            &&& id != gap
            &&& name_at(after, gap) is None
        }),
{
    lemma_position_facts(e, name, 0);
    if id_for(e, name) is None {
        assert(e.push(Some(name))[gap - 1] == e[gap - 1]);
    }
}

/// Reconciling never renumbers: every id the index had before still names
/// what it named, new names only ever follow.
pub proof fn lemma_reconcile_keeps_ids(e: Seq<Option<Seq<char>>>, names: Seq<Seq<char>>, id: int)
    requires
        1 <= id <= e.len(),
    ensures
        name_at(added_all(e, names), id) == name_at(e, id),
    decreases names.len(),
{
    if names.len() > 0 {
        lemma_reconcile_keeps_ids(e, names.drop_last(), id);
        lemma_added_all_grows(e, names.drop_last());
        let before = added_all(e, names.drop_last());
        if id_for(before, names.last()) is None {
            assert(before.push(Some(names.last()))[id - 1] == before[id - 1]);
        }
    }
}

proof fn lemma_added_all_grows(e: Seq<Option<Seq<char>>>, names: Seq<Seq<char>>)
    ensures
        added_all(e, names).len() >= e.len(),
    decreases names.len(),
{
    if names.len() > 0 {
        lemma_added_all_grows(e, names.drop_last());
    }
}

} // verus!
