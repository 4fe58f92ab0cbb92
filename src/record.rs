//! The persisted selection record: one name per line.
use vstd::prelude::*;

verus! {

/// The pieces of `s` between newline characters: `k` newlines give `k + 1`
/// pieces, the last of them possibly empty.
pub open spec fn pieces(s: Seq<char>) -> Seq<Seq<char>>
    decreases s.len(),
{
    if s.len() == 0 {
        seq![Seq::empty()]
    } else {
        let p = pieces(s.drop_last());
        if s.last() == '\n' {
            p.push(Seq::empty())
        } else {
            p.update(p.len() - 1, p.last().push(s.last()))
        }
    }
}

/// A line without the carriage return that ended it, if it had one.
pub open spec fn strip_cr(l: Seq<char>) -> Seq<char> {
    if l.len() > 0 && l.last() == '\r' {
        l.drop_last()
    } else {
        l
    }
}

/// Whether `s` holds no incomplete last line.
pub open spec fn ends_clean(s: Seq<char>) -> bool {
    s.len() == 0 || s.last() == '\n'
}

/// The lines of `s`: split at each `\n`, a `\r` right before it dropped, and
/// no empty line after a final `\n`.
pub open spec fn lines_of(s: Seq<char>) -> Seq<Seq<char>> {
    let p = pieces(s);
    let n = if ends_clean(s) { p.len() - 1 } else { p.len() as int };
    Seq::new(n as nat, |i: int| if i < p.len() - 1 { strip_cr(p[i]) } else { p[i] })
}

/// The record written for `names`: each name followed by a newline.
pub open spec fn record_text(names: Seq<Seq<char>>) -> Seq<char>
    decreases names.len(),
{
    if names.len() == 0 {
        Seq::empty()
    } else {
        record_text(names.drop_last()) + names.last() + seq!['\n']
    }
}

/// A name that one line of a record can carry unchanged.
pub open spec fn fits_on_line(name: Seq<char>) -> bool {
    &&& !name.contains('\n')
    &&& !(name.len() > 0 && name.last() == '\r')
}

pub proof fn lemma_pieces_nonempty(s: Seq<char>)
    ensures
        pieces(s).len() >= 1,
    decreases s.len(),
{
    if s.len() > 0 {
        lemma_pieces_nonempty(s.drop_last());
    }
}

/// Text without a newline extends the last piece.
pub proof fn lemma_pieces_extend(p: Seq<char>, t: Seq<char>)
    requires
        !t.contains('\n'),
    ensures
        pieces(p + t) == pieces(p).update(
            pieces(p).len() - 1,
            pieces(p).last() + t,
        ),
        pieces(p + t).len() == pieces(p).len(),
    decreases t.len(),
{
    lemma_pieces_nonempty(p);
    if t.len() == 0 {
        assert(p + t =~= p);
        assert(pieces(p).last() + t =~= pieces(p).last());
        assert(pieces(p).update(pieces(p).len() - 1, pieces(p).last()) =~= pieces(p));
    } else {
        let u = t.drop_last();
        assert(!u.contains('\n')) by {
            if u.contains('\n') {
                let j = choose|j: int| 0 <= j < u.len() && u[j] == '\n';
                assert(t[j] == '\n');
            }
        }
        lemma_pieces_extend(p, u);
        assert((p + t).drop_last() =~= p + u);
        assert((p + t).last() == t.last());
        assert(t.last() != '\n') by {
            assert(t[t.len() - 1] == t.last());
        }
        assert((pieces(p).last() + u).push(t.last()) =~= pieces(p).last() + t);
        assert(pieces(p + t) =~= pieces(p).update(pieces(p).len() - 1, pieces(p).last() + t));
    }
}

/// A record splits into its names, followed by one empty piece.
pub proof fn lemma_pieces_of_record(names: Seq<Seq<char>>)
    requires
        forall|i: int| 0 <= i < names.len() ==> !(#[trigger] names[i]).contains('\n'),
    ensures
        pieces(record_text(names)) == names.push(Seq::empty()),
    decreases names.len(),
{
    if names.len() == 0 {
        assert(pieces(Seq::<char>::empty()) =~= names.push(Seq::empty()));
    } else {
        let init = names.drop_last();
        let r0 = record_text(init);
        lemma_pieces_of_record(init);
        let last = names.last();
        assert(!last.contains('\n')) by {
            assert(names[names.len() - 1] == last);
        }
        lemma_pieces_extend(r0, last);
        let body = r0 + last;
        let whole = record_text(names);
        assert(whole == body + seq!['\n']);
        assert(whole.drop_last() =~= body);
        assert(whole.last() == '\n');
        assert(init.push(Seq::empty()).update(init.len() as int, Seq::<char>::empty() + last)
            =~= names) by {
            assert(Seq::<char>::empty() + last =~= last);
            assert(names =~= init.push(last));
        }
        assert(pieces(whole) =~= names.push(Seq::empty()));
    }
}

/// Reading back a written record gives the names that were written, as long
/// as each one fits on a line.
pub proof fn lemma_record_round_trip(names: Seq<Seq<char>>)
    requires
        forall|i: int| 0 <= i < names.len() ==> fits_on_line(#[trigger] names[i]),
    ensures
        lines_of(record_text(names)) == names,
{
    assert forall|i: int| 0 <= i < names.len() implies !(#[trigger] names[i]).contains('\n') by {
        assert(fits_on_line(names[i]));
    }
    lemma_pieces_of_record(names);
    let s = record_text(names);
    assert(ends_clean(s)) by {
        if names.len() > 0 {
            assert(s == record_text(names.drop_last()) + names.last() + seq!['\n']);
        }
    }
    assert forall|i: int| 0 <= i < names.len() implies strip_cr(#[trigger] names[i]) == names[i] by {
        assert(fits_on_line(names[i]));
    }
    assert(lines_of(s) =~= names);
}

/// The record of no names is empty.
pub proof fn lemma_empty_record()
    ensures
        record_text(Seq::empty()).len() == 0,
        lines_of(Seq::empty()).len() == 0,
{
    assert(pieces(Seq::<char>::empty()).len() == 1);
}

/// The lines of `content`, as `str::lines` gives them.
pub fn parse_selection(content: &str) -> (r: Vec<String>)
    ensures
        r@.map_values(|l: String| l@) == lines_of(content@),
{
    let n = content.unicode_len();
    let ghost s = content@;
    let ghost mut done: Seq<Seq<char>> = Seq::empty();
    let mut out: Vec<String> = Vec::new();
    let mut start: usize = 0;
    let mut i: usize = 0;
    assert(s.take(0) =~= Seq::<char>::empty());
    assert(s.subrange(0, 0) =~= Seq::<char>::empty());
    while i < n
        invariant
            n == s.len(),
            s == content@,
            start <= i <= n,
            pieces(s.take(i as int)) == done.push(s.subrange(start as int, i as int)),
            out@.map_values(|l: String| l@) == done.map_values(|l: Seq<char>| strip_cr(l)),
            start == i <==> ends_clean(s.take(i as int)),
        decreases n - i,
    {
        let c = content.get_char(i);
        assert(s.take(i + 1).drop_last() =~= s.take(i as int));
        assert(s.take(i + 1).last() == c);
        if c == '\n' {
            let piece = content.substring_char(start, i);
            let line = if i > start && piece.get_char(i - start - 1) == '\r' {
                piece.substring_char(0, i - start - 1).to_owned()
            } else {
                piece.to_owned()
            };
            proof {
                let l = s.subrange(start as int, i as int);
                assert(piece@ == l);
                if i > start && l.last() == '\r' {
                    assert(l.drop_last() =~= l.subrange(0, i - start - 1));
                }
                assert(line@ == strip_cr(l));
                assert(s.subrange((i + 1) as int, (i + 1) as int) =~= Seq::<char>::empty());
            }
            let ghost prev = out@;
            let ghost prev_done = done;
            out.push(line);
            proof {
                let l = s.subrange(start as int, i as int);
                done = done.push(l);
                assert(out@.map_values(|l: String| l@) =~= prev.map_values(|l: String| l@).push(
                    line@,
                ));
                assert(done.map_values(|l: Seq<char>| strip_cr(l)) =~= prev_done.map_values(
                    |l: Seq<char>| strip_cr(l),
                ).push(strip_cr(l)));
            }
            start = i + 1;
        } else {
            proof {
                let l = s.subrange(start as int, i as int);
                assert(l.push(c) =~= s.subrange(start as int, (i + 1) as int));
            }
        }
        i = i + 1;
    }
    assert(s.take(n as int) =~= s);
    let ghost prev = out@;
    if start < n {
        let piece = content.substring_char(start, n).to_owned();
        out.push(piece);
        assert(out@.map_values(|l: String| l@) =~= prev.map_values(|l: String| l@).push(
            s.subrange(start as int, n as int),
        ));
    }
    proof {
        let p = pieces(s);
        assert(p == done.push(s.subrange(start as int, n as int)));
        assert(out@.map_values(|l: String| l@) =~= lines_of(s));
    }
    out
}

/// The text of a record for `names`: each name followed by a newline.
pub fn selection_record(names: &Vec<String>) -> (r: String)
    ensures
        r@ == record_text(names@.map_values(|l: String| l@)),
{
    let ghost view = names@.map_values(|l: String| l@);
    let mut out = String::new();
    let mut i: usize = 0;
    proof {
        reveal_strlit("\n");
        assert(view.take(0) =~= Seq::<Seq<char>>::empty());
    }
    while i < names.len()
        invariant
            view == names@.map_values(|l: String| l@),
            i <= names.len(),
            out@ == record_text(view.take(i as int)),
            "\n"@ == seq!['\n'],
        decreases names.len() - i,
    {
        out.append(names[i].as_str());
        out.append("\n");
        assert(view.take(i + 1).drop_last() =~= view.take(i as int));
        i = i + 1;
    }
    assert(view.take(i as int) =~= view);
    out
}

} // verus!
