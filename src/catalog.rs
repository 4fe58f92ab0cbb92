//! The catalog: the list files that can be selected, in name order, followed
//! by the save and cancel actions, with a cursor over all of them.
use vstd::prelude::*;

use crate::record::{fits_on_line, lemma_record_round_trip, lines_of, record_text, selection_record};
use crate::text::{
    has_prefix, has_suffix, lemma_lex_asymmetric, lemma_lex_irreflexive, lemma_lex_total,
    lemma_lex_transitive, lex_lt, name_less, same_text,
};

verus! {

/// Whether a file of this name is a list that can be selected: it starts with
/// `list-`, ends with `.txt`, and is not the generated union `list-ultimate.txt`.
pub open spec fn is_list_name(n: Seq<char>) -> bool {
    &&& "list-"@.len() <= n.len()
    &&& n.take("list-"@.len() as int) == "list-"@
    &&& ".txt"@.len() <= n.len()
    &&& n.skip(n.len() - ".txt"@.len()) == ".txt"@
    &&& n != "list-ultimate.txt"@
}

/// Every name sorts strictly before the names after it.
pub open spec fn strictly_sorted(s: Seq<Seq<char>>) -> bool {
    forall|i: int, j: int| 0 <= i < j < s.len() ==> lex_lt(#[trigger] s[i], #[trigger] s[j])
}

/// The names whose flag is set, in their order.
pub open spec fn picked(names: Seq<Seq<char>>, sel: Seq<bool>) -> Seq<Seq<char>>
    decreases names.len(),
{
    if names.len() == 0 {
        Seq::empty()
    } else {
        let rest = picked(names.drop_last(), sel.take(names.len() - 1));
        if sel[names.len() - 1] {
            rest.push(names.last())
        } else {
            rest
        }
    }
}

/// One list file of the catalog.
#[derive(Debug)]
pub struct FileEntry {
    pub name: String,
    pub selected: bool,
}

/// What a position of the catalog stands for.
#[derive(Clone, Copy, Debug, PartialEq, Eq, Structural)]
pub enum Target {
    /// The list file at this index.
    Entry(usize),
    /// The action that writes the selection and ends the session.
    Save,
    /// The action that ends the session without writing.
    Cancel,
}

/// The catalog as values: the list names, their flags, and the cursor. The
/// positions `names.len()` and `names.len() + 1` are the save and cancel actions.
pub struct CatalogView {
    pub names: Seq<Seq<char>>,
    pub selected: Seq<bool>,
    pub cursor: int,
}

impl CatalogView {
    /// Number of positions, the two actions included.
    pub open spec fn len(self) -> int {
        self.names.len() + 2int
    }

    pub open spec fn wf(self) -> bool {
        &&& self.names.len() == self.selected.len()
        &&& 0 <= self.cursor < self.len()
        &&& self.len() <= usize::MAX
        &&& strictly_sorted(self.names)
        &&& forall|i: int| 0 <= i < self.names.len() ==> is_list_name(#[trigger] self.names[i])
    }

    /// The names are exactly the list names among `dir`.
    pub open spec fn lists(self, dir: Seq<Seq<char>>) -> bool {
        forall|n: Seq<char>|
            #![trigger self.names.contains(n)]
            #![trigger dir.contains(n)]
            self.names.contains(n) <==> (dir.contains(n) && is_list_name(n))
    }

    /// A name is selected exactly when `persisted` holds it.
    pub open spec fn marks_from(self, persisted: Seq<Seq<char>>) -> bool {
        forall|i: int|
            0 <= i < self.names.len() ==> #[trigger] self.selected[i] == persisted.contains(
                self.names[i],
            )
    }

    /// What building from the directory listing `dir` and the record lines
    /// `persisted` gives, whatever the cursor.
    pub open spec fn built_from(self, dir: Seq<Seq<char>>, persisted: Seq<Seq<char>>) -> bool {
        &&& self.names.len() == self.selected.len()
        &&& strictly_sorted(self.names)
        &&& self.lists(dir)
        &&& self.marks_from(persisted)
    }

    pub open spec fn target(self) -> Target {
        if self.cursor < self.names.len() {
            Target::Entry(self.cursor as usize)
        } else if self.cursor == self.names.len() {
            Target::Save
        } else {
            Target::Cancel
        }
    }

    /// The cursor one position up, staying at the first position.
    pub open spec fn moved_up(self) -> CatalogView {
        CatalogView {
            cursor: if self.cursor > 0 { self.cursor - 1 } else { self.cursor },
            ..self
        }
    }

    /// The cursor one position down, staying at the last position.
    pub open spec fn moved_down(self) -> CatalogView {
        CatalogView {
            cursor: if self.cursor < self.len() - 1 { self.cursor + 1 } else { self.cursor },
            ..self
        }
    }

    /// The flag of entry `i` flipped.
    pub open spec fn toggled(self, i: int) -> CatalogView {
        CatalogView { selected: self.selected.update(i, !self.selected[i]), ..self }
    }

    /// The names that a save writes.
    pub open spec fn saved(self) -> Seq<Seq<char>> {
        picked(self.names, self.selected)
    }
}

pub open spec fn names_of(es: Seq<FileEntry>) -> Seq<Seq<char>> {
    es.map_values(|e: FileEntry| e.name@)
}

pub open spec fn flags_of(es: Seq<FileEntry>) -> Seq<bool> {
    es.map_values(|e: FileEntry| e.selected)
}

pub open spec fn texts(v: Seq<String>) -> Seq<Seq<char>> {
    v.map_values(|s: String| s@)
}

/// The list files in name order and a cursor over them and the two actions.
pub struct Catalog {
    entries: Vec<FileEntry>,
    cursor: usize,
}

impl View for Catalog {
    type V = CatalogView;

    closed spec fn view(&self) -> CatalogView {
        CatalogView {
            names: names_of(self.entries@),
            selected: flags_of(self.entries@),
            cursor: self.cursor as int,
        }
    }
}

/// Whether a file of this name is a list that can be selected.
pub fn is_list_file(name: &str) -> (r: bool)
    ensures
        r == is_list_name(name@),
{
    has_prefix(name, "list-") && has_suffix(name, ".txt") && !same_text(name, "list-ultimate.txt")
}

/// Whether `list` holds `name`.
fn holds_name(list: &Vec<String>, name: &String) -> (r: bool)
    ensures
        r == texts(list@).contains(name@),
{
    let mut i: usize = 0;
    while i < list.len()
        invariant
            i <= list.len(),
            forall|j: int| 0 <= j < i ==> list@[j]@ != name@,
        decreases list.len() - i,
    {
        if list[i] == *name {
            assert(texts(list@)[i as int] == name@);
            return true;
        }
        i = i + 1;
    }
    assert(!texts(list@).contains(name@)) by {
        if texts(list@).contains(name@) {
            let j = choose|j: int| 0 <= j < texts(list@).len() && texts(list@)[j] == name@;
            assert(list@[j]@ == name@);
        }
    }
    false
}

/// Two strictly sorted sequences that hold the same names are equal.
pub proof fn lemma_sorted_unique(a: Seq<Seq<char>>, b: Seq<Seq<char>>)
    requires
        strictly_sorted(a),
        strictly_sorted(b),
        forall|n: Seq<char>| a.contains(n) <==> b.contains(n),
    ensures
        a == b,
    decreases a.len(),
{
    if a.len() == 0 {
        if b.len() > 0 {
            assert(b.contains(b[0]));
        }
        assert(a =~= b);
    } else if b.len() == 0 {
        assert(a.contains(a[0]));
    } else {
        assert(a.contains(a[0]));
        assert(b.contains(b[0]));
        let ka = choose|k: int| 0 <= k < b.len() && b[k] == a[0];
        let kb = choose|k: int| 0 <= k < a.len() && a[k] == b[0];
        if a[0] != b[0] {
            lemma_lex_total(a[0], b[0]);
            lemma_lex_asymmetric(a[0], b[0]);
            if lex_lt(a[0], b[0]) {
                assert(ka > 0);
                assert(lex_lt(b[0], b[ka]));
            } else {
                assert(kb > 0);
                assert(lex_lt(a[0], a[kb]));
            }
        }
        let ra = a.drop_first();
        let rb = b.drop_first();
        assert forall|n: Seq<char>| ra.contains(n) <==> rb.contains(n) by {
            if ra.contains(n) {
                let k = choose|k: int| 0 <= k < ra.len() && ra[k] == n;
                assert(a[k + 1] == n);
                assert(lex_lt(a[0], n));
                lemma_lex_irreflexive(n);
                assert(b.contains(n));
                let m = choose|m: int| 0 <= m < b.len() && b[m] == n;
                assert(m != 0);
                assert(rb[m - 1] == n);
            }
            if rb.contains(n) {
                let k = choose|k: int| 0 <= k < rb.len() && rb[k] == n;
                assert(b[k + 1] == n);
                assert(lex_lt(b[0], n));
                lemma_lex_irreflexive(n);
                assert(a.contains(n));
                let m = choose|m: int| 0 <= m < a.len() && a[m] == n;
                assert(m != 0);
                assert(ra[m - 1] == n);
            }
        }
        lemma_sorted_unique(ra, rb);
        assert(a =~= seq![a[0]] + ra);
        assert(b =~= seq![b[0]] + rb);
    }
}

/// A name is among the picked ones exactly when it stands at a position
/// whose flag is set.
pub proof fn lemma_picked_contains(names: Seq<Seq<char>>, sel: Seq<bool>, n: Seq<char>)
    requires
        names.len() == sel.len(),
    ensures
        picked(names, sel).contains(n) <==> exists|i: int|
            0 <= i < names.len() && names[i] == n && #[trigger] sel[i],
    decreases names.len(),
{
    if names.len() > 0 {
        let k = names.len() - 1;
        let ns = names.drop_last();
        let ss = sel.take(k);
        lemma_picked_contains(ns, ss, n);
        let rest = picked(ns, ss);
        if picked(names, sel).contains(n) {
            if sel[k] && n == names.last() {
                assert(names[k] == n && sel[k]);
            } else {
                assert(rest.contains(n)) by {
                    let j = choose|j: int| 0 <= j < picked(names, sel).len() && picked(names, sel)[j] == n;
                    if sel[k] {
                        assert(j < rest.len());
                        assert(rest[j] == n);
                    }
                }
                let i = choose|i: int| 0 <= i < ns.len() && ns[i] == n && #[trigger] ss[i];
                assert(names[i] == n && sel[i]);
            }
        }
        if exists|i: int| 0 <= i < names.len() && names[i] == n && #[trigger] sel[i] {
            let i = choose|i: int| 0 <= i < names.len() && names[i] == n && #[trigger] sel[i];
            if i == k {
                assert(picked(names, sel) == rest.push(names.last()));
                assert(picked(names, sel)[rest.len() as int] == n);
            } else {
                assert(ns[i] == n && ss[i]);
                let j = choose|j: int| 0 <= j < rest.len() && rest[j] == n;
                if sel[k] {
                    assert(picked(names, sel)[j] == n);
                } else {
                    assert(picked(names, sel)[j] == n);
                }
            }
        }
    }
}

/// Putting `x` at its place in a strictly sorted sequence keeps it strictly
/// sorted, and adds `x` to what it holds.
pub proof fn lemma_insert_sorted(names: Seq<Seq<char>>, p: int, x: Seq<char>)
    requires
        strictly_sorted(names),
        0 <= p <= names.len(),
        forall|j: int| 0 <= j < p ==> lex_lt(#[trigger] names[j], x),
        p < names.len() ==> lex_lt(x, names[p]),
    ensures
        strictly_sorted(names.insert(p, x)),
        forall|n: Seq<char>| names.insert(p, x).contains(n) <==> (names.contains(n) || n == x),
{
    let t = names.insert(p, x);
    assert forall|i: int, j: int| 0 <= i < j < t.len() implies lex_lt(#[trigger] t[i], #[trigger] t[j]) by {
        if j < p {
        } else if j == p {
            assert(t[i] == names[i]);
        } else if i < p {
            assert(t[j] == names[j - 1]);
            assert(lex_lt(names[i], names[j - 1]));
        } else if i == p {
            assert(t[j] == names[j - 1]);
            if j - 1 > p {
                assert(lex_lt(names[p], names[j - 1]));
                lemma_lex_transitive(x, names[p], names[j - 1]);
            }
        } else {
            assert(t[i] == names[i - 1]);
            assert(t[j] == names[j - 1]);
        }
    }
    assert forall|n: Seq<char>| t.contains(n) <==> (names.contains(n) || n == x) by {
        if t.contains(n) {
            let k = choose|k: int| 0 <= k < t.len() && t[k] == n;
            if k < p {
                assert(names[k] == n);
            } else if k > p {
                assert(names[k - 1] == n);
            }
        }
        if names.contains(n) {
            let k = choose|k: int| 0 <= k < names.len() && names[k] == n;
            if k < p {
                assert(t[k] == n);
            } else {
                assert(t[k + 1] == n);
            }
        }
        if n == x {
            assert(t[p] == x);
        }
    }
}

impl Catalog {
    /// Builds the catalog from the names of the files in the list directory
    /// and the lines of the persisted selection record. The cursor starts at
    /// the first position.
    pub fn build(dir: &Vec<String>, persisted: &Vec<String>) -> (r: Catalog)
        requires
            dir@.len() + 2 <= usize::MAX,
        ensures
            r@.wf(),
            r@.cursor == 0,
            r@.built_from(texts(dir@), texts(persisted@)),
            texts(dir@).no_duplicates() ==> r@.names.len() == texts(dir@).filter(
                |n: Seq<char>| is_list_name(n),
            ).len(),
    {
        let ghost d = texts(dir@);
        let ghost pers = texts(persisted@);
        let ghost pred = |n: Seq<char>| is_list_name(n);
        let mut entries: Vec<FileEntry> = Vec::new();
        let mut i: usize = 0;
        assert(d.take(0) =~= Seq::<Seq<char>>::empty());
        assert(names_of(entries@) =~= Seq::<Seq<char>>::empty());
        while i < dir.len()
            invariant
                d == texts(dir@),
                pers == texts(persisted@),
                pred == (|n: Seq<char>| is_list_name(n)),
                i <= dir.len(),
                dir@.len() + 2 <= usize::MAX,
                entries@.len() <= i,
                strictly_sorted(names_of(entries@)),
                forall|k: int|
                    0 <= k < entries@.len() ==> is_list_name(#[trigger] names_of(entries@)[k]),
                forall|n: Seq<char>|
                    names_of(entries@).contains(n) <==> (d.take(i as int).contains(n)
                        && is_list_name(n)),
                forall|k: int|
                    0 <= k < entries@.len() ==> #[trigger] flags_of(entries@)[k] == pers.contains(
                        names_of(entries@)[k],
                    ),
                d.no_duplicates() ==> entries@.len() == d.take(i as int).filter(pred).len(),
            decreases dir.len() - i,
        {
            let name = &dir[i];
            let ghost x = name@;
            let ghost before = entries@;
            let ghost names = names_of(before);
            assert(d[i as int] == x);
            assert(d.take(i + 1) =~= d.take(i as int).push(x));
            proof { d.take(i as int).lemma_filter_push(x, pred); }
            if is_list_file(name.as_str()) {
                let mut p: usize = 0;
                while p < entries.len() && name_less(entries[p].name.as_str(), name.as_str())
                    invariant
                        entries@ == before,
                        names == names_of(before),
                        x == name@,
                        p <= entries.len(),
                        forall|j: int| 0 <= j < p ==> lex_lt(#[trigger] names[j], x),
                    decreases entries.len() - p,
                {
                    assert(names[p as int] == entries@[p as int].name@);
                    p = p + 1;
                }
                if p < entries.len() && entries[p].name == *name {
                    proof {
                        assert(names[p as int] == x);
                        assert(names.contains(x));
                        if d.no_duplicates() {
                            let j = choose|j: int| 0 <= j < i && d.take(i as int)[j] == x;
                            assert(d[j] == d[i as int]);
                        }
                    }
                } else {
                    proof {
                        if p < entries.len() {
                            lemma_lex_total(names[p as int], x);
                        }
                        lemma_insert_sorted(names, p as int, x);
                        if d.no_duplicates() {
                            assert(!names.contains(x)) by {
                                if names.contains(x) {
                                    let j = choose|j: int| 0 <= j < i && d.take(i as int)[j] == x;
                                    assert(d[j] == d[i as int]);
                                }
                            }
                        }
                    }
                    let selected = holds_name(persisted, name);
                    entries.insert(p, FileEntry { name: name.clone(), selected });
                    proof {
                        assert(names_of(entries@) =~= names.insert(p as int, x));
                        assert(flags_of(entries@) =~= flags_of(before).insert(p as int, selected));
                        assert forall|k: int| 0 <= k < entries@.len() implies is_list_name(
                            #[trigger] names_of(entries@)[k],
                        ) by {
                            if k < p {
                                assert(names_of(entries@)[k] == names[k]);
                            } else if k > p {
                                assert(names_of(entries@)[k] == names[k - 1]);
                            }
                        }
                        assert forall|k: int| 0 <= k < entries@.len() implies #[trigger] flags_of(
                            entries@,
                        )[k] == pers.contains(names_of(entries@)[k]) by {
                            if k < p {
                                assert(flags_of(entries@)[k] == flags_of(before)[k]);
                                assert(names_of(entries@)[k] == names[k]);
                            } else if k > p {
                                assert(flags_of(entries@)[k] == flags_of(before)[k - 1]);
                                assert(names_of(entries@)[k] == names[k - 1]);
                            }
                        }
                    }
                }
            }
            proof {
                let (t0, t1) = (d.take(i as int), d.take(i + 1));
                assert forall|n: Seq<char>| t1.contains(n) <==> (t0.contains(n) || n == x) by {
                    if t1.contains(n) {
                        let k = choose|k: int| 0 <= k < t1.len() && t1[k] == n;
                        if k < i {
                            assert(t0[k] == n);
                        }
                    }
                    if t0.contains(n) {
                        let k = choose|k: int| 0 <= k < t0.len() && t0[k] == n;
                        assert(t1[k] == n);
                    }
                    if n == x {
                        assert(t1[i as int] == x);
                    }
                }
            }
            i = i + 1;
        }
        assert(d.take(dir.len() as int) =~= d);
        Catalog { entries, cursor: 0 }
    }

    /// Number of positions, the two actions included.
    pub fn len(&self) -> (r: usize)
        requires
            self@.wf(),
        ensures
            r == self@.len(),
    {
        self.entries.len() + 2
    }

    /// The position of the cursor.
    pub fn cursor(&self) -> (r: usize)
        ensures
            r == self@.cursor,
    {
        self.cursor
    }

    /// The list files, in name order.
    pub fn entries(&self) -> (r: &Vec<FileEntry>)
        ensures
            names_of(r@) == self@.names,
            flags_of(r@) == self@.selected,
    {
        &self.entries
    }

    /// What the cursor stands on.
    pub fn target(&self) -> (r: Target)
        requires
            self@.wf(),
        ensures
            r == self@.target(),
    {
        let n = self.entries.len();
        if self.cursor < n {
            Target::Entry(self.cursor)
        } else if self.cursor == n {
            Target::Save
        } else {
            Target::Cancel
        }
    }

    /// Moves the cursor one position up; at the first position it stays.
    pub fn move_up(&mut self)
        requires
            old(self)@.wf(),
        ensures
            final(self)@ == old(self)@.moved_up(),
            final(self)@.wf(),
    {
        if self.cursor > 0 {
            self.cursor = self.cursor - 1;
        }
    }

    /// Moves the cursor one position down; at the last position it stays.
    pub fn move_down(&mut self)
        requires
            old(self)@.wf(),
        ensures
            final(self)@ == old(self)@.moved_down(),
            final(self)@.wf(),
    {
        if self.cursor < self.entries.len() + 1 {
            self.cursor = self.cursor + 1;
        }
    }

    /// Flips whether list file `i` is selected.
    pub fn toggle(&mut self, i: usize)
        requires
            old(self)@.wf(),
            i < old(self)@.names.len(),
        ensures
            final(self)@ == old(self)@.toggled(i as int),
            final(self)@.wf(),
    {
        let e = FileEntry { name: self.entries[i].name.clone(), selected: !self.entries[i].selected };
        let ghost before = self.entries@;
        self.entries.set(i, e);
        assert(names_of(self.entries@) =~= names_of(before));
        assert(flags_of(self.entries@) =~= flags_of(before).update(i as int, !flags_of(before)[i as int]));
    }

    /// The names of the selected list files, in catalog order.
    pub fn saved_names(&self) -> (r: Vec<String>)
        ensures
            texts(r@) == self@.saved(),
    {
        let ghost names = self@.names;
        let ghost sel = self@.selected;
        let mut out: Vec<String> = Vec::new();
        let mut i: usize = 0;
        assert(names.take(0) =~= Seq::<Seq<char>>::empty());
        assert(texts(out@) =~= Seq::<Seq<char>>::empty());
        while i < self.entries.len()
            invariant
                names == self@.names,
                sel == self@.selected,
                i <= self.entries.len(),
                texts(out@) == picked(names.take(i as int), sel.take(i as int)),
            decreases self.entries.len() - i,
        {
            let ghost prev = out@;
            assert(names.take(i + 1).drop_last() =~= names.take(i as int));
            assert(sel.take(i + 1).take(i as int) =~= sel.take(i as int));
            assert(names.take(i + 1).last() == self.entries@[i as int].name@);
            assert(sel.take(i + 1)[i as int] == self.entries@[i as int].selected);
            if self.entries[i].selected {
                out.push(self.entries[i].name.clone());
                assert(texts(out@) =~= texts(prev).push(self.entries@[i as int].name@));
            }
            i = i + 1;
        }
        assert(names.take(i as int) =~= names);
        assert(sel.take(i as int) =~= sel);
        out
    }

    /// The text of the selection record for the current selection.
    pub fn selection_text(&self) -> (r: String)
        ensures
            r@ == record_text(self@.saved()),
    {
        selection_record(&self.saved_names())
    }
}

/// Moving the cursor up or down keeps it within the positions of the catalog.
pub proof fn lemma_moves_stay_in_range(c: CatalogView)
    requires
        c.wf(),
    ensures
        c.moved_up().wf(),
        c.moved_down().wf(),
        0 <= c.moved_up().cursor < c.len(),
        0 <= c.moved_down().cursor < c.len(),
{
}

/// The last two positions are the save and the cancel actions, in that order.
pub proof fn lemma_actions_last(c: CatalogView)
    requires
        c.wf(),
    ensures
        (CatalogView { cursor: c.len() - 2, ..c }).target() == Target::Save,
        (CatalogView { cursor: c.len() - 1, ..c }).target() == Target::Cancel,
        forall|i: int|
            0 <= i < c.names.len() ==> (CatalogView { cursor: i, ..c }).target() == Target::Entry(
                i as usize,
            ),
{
}

/// Flipping the same entry twice gives back the catalog it started from.
pub proof fn lemma_toggle_twice(c: CatalogView, i: int)
    requires
        0 <= i < c.selected.len(),
    ensures
        c.toggled(i).toggled(i) == c,
{
    assert(c.toggled(i).toggled(i).selected =~= c.selected);
}

/// A list name never ends in a carriage return, so it fits on a line when it
/// holds no newline.
proof fn lemma_list_name_fits(n: Seq<char>)
    requires
        is_list_name(n),
        !n.contains('\n'),
    ensures
        fits_on_line(n),
{
    reveal_strlit(".txt");
    assert(n.last() == n.skip(n.len() - 4)[3]);
}

/// Saving a catalog and then building it again from the same directory and
/// the record just written gives back the same names and the same selection,
/// as long as no name holds a newline.
pub proof fn lemma_save_then_reload(dir: Seq<Seq<char>>, c: CatalogView, reloaded: CatalogView)
    requires
        c.wf(),
        c.lists(dir),
        forall|i: int| 0 <= i < c.names.len() ==> !(#[trigger] c.names[i]).contains('\n'),
        reloaded.built_from(dir, lines_of(record_text(c.saved()))),
    ensures
        reloaded.names == c.names,
        reloaded.selected == c.selected,
{
    assert(reloaded.lists(dir));
    assert forall|n: Seq<char>| reloaded.names.contains(n) <==> c.names.contains(n) by {
        assert(reloaded.names.contains(n) <==> (dir.contains(n) && is_list_name(n)));
        assert(c.names.contains(n) <==> (dir.contains(n) && is_list_name(n)));
    }
    lemma_sorted_unique(reloaded.names, c.names);
    let saved = c.saved();
    assert forall|k: int| 0 <= k < saved.len() implies fits_on_line(#[trigger] saved[k]) by {
        lemma_picked_contains(c.names, c.selected, saved[k]);
        assert(saved.contains(saved[k]));
        let i = choose|i: int| 0 <= i < c.names.len() && c.names[i] == saved[k] && #[trigger] c.selected[i];
        lemma_list_name_fits(c.names[i]);
    }
    lemma_record_round_trip(saved);
    assert forall|i: int| 0 <= i < c.names.len() implies reloaded.selected[i] == c.selected[i] by {
        assert(reloaded.marks_from(saved));
        assert(reloaded.selected[i] == saved.contains(c.names[i]));
        lemma_picked_contains(c.names, c.selected, c.names[i]);
        if saved.contains(c.names[i]) {
            let j = choose|j: int| 0 <= j < c.names.len() && c.names[j] == c.names[i] && #[trigger] c.selected[j];
            if j != i {
                lemma_lex_irreflexive(c.names[i]);
                if j < i {
                    assert(lex_lt(c.names[j], c.names[i]));
                } else {
                    assert(lex_lt(c.names[i], c.names[j]));
                }
            }
        }
    }
    assert(reloaded.selected =~= c.selected);
}

/// Saving with nothing selected writes an empty record, and building again
/// from it selects nothing.
pub proof fn lemma_save_nothing(dir: Seq<Seq<char>>, c: CatalogView, reloaded: CatalogView)
    requires
        c.wf(),
        forall|i: int| 0 <= i < c.selected.len() ==> !c.selected[i],
        reloaded.built_from(dir, lines_of(record_text(c.saved()))),
    ensures
        record_text(c.saved()).len() == 0,
        forall|i: int| 0 <= i < reloaded.selected.len() ==> !reloaded.selected[i],
{
    let saved = c.saved();
    if saved.len() > 0 {
        lemma_picked_contains(c.names, c.selected, saved[0]);
        assert(saved.contains(saved[0]));
    }
    assert(saved =~= Seq::<Seq<char>>::empty());
    crate::record::lemma_empty_record();
    assert forall|i: int| 0 <= i < reloaded.selected.len() implies !reloaded.selected[i] by {
        assert(reloaded.selected[i] == lines_of(record_text(saved)).contains(reloaded.names[i]));
    }
}

} // verus!
