use vstd::prelude::*;
use crate::label::{chars_equal, gender_label, Label};

verus! {

// ── Character-level text handling ────────────────────────────────────────────

/// Unicode white space (the characters that `char::is_whitespace` accepts).
pub open spec fn is_space(c: char) -> bool {
    let v = c as u32;
    (0x09 <= v && v <= 0x0d) || v == 0x20 || v == 0x85 || v == 0xa0 || v == 0x1680 || (0x2000 <= v
        && v <= 0x200a) || v == 0x2028 || v == 0x2029 || v == 0x202f || v == 0x205f || v == 0x3000
}

/// Whether `c` is Unicode white space.
pub fn is_whitespace(c: char) -> (r: bool)
    ensures
        r == is_space(c),
{
    let v = c as u32;
    (0x09 <= v && v <= 0x0d) || v == 0x20 || v == 0x85 || v == 0xa0 || v == 0x1680 || (0x2000 <= v
        && v <= 0x200a) || v == 0x2028 || v == 0x2029 || v == 0x202f || v == 0x205f || v == 0x3000
}

/// `s` without leading white space.
pub open spec fn trim_start(s: Seq<char>) -> Seq<char>
    decreases s.len(),
{
    if s.len() > 0 && is_space(s[0]) {
        trim_start(s.drop_first())
    } else {
        s
    }
}

/// `s` without trailing white space.
pub open spec fn trim_end(s: Seq<char>) -> Seq<char>
    decreases s.len(),
{
    if s.len() > 0 && is_space(s.last()) {
        trim_end(s.drop_last())
    } else {
        s
    }
}

/// `s` without leading and trailing white space.
pub open spec fn trimmed(s: Seq<char>) -> Seq<char> {
    trim_end(trim_start(s))
}

fn copy_range(s: &[char], start: usize, end: usize) -> (r: Vec<char>)
    requires
        start <= end <= s@.len(),
    ensures
        r@ == s@.subrange(start as int, end as int),
{
    let mut out: Vec<char> = Vec::new();
    let mut i = start;
    while i < end
        invariant
            start <= i <= end <= s@.len(),
            out@ == s@.subrange(start as int, i as int),
        decreases end - i,
    {
        out.push(s[i]);
        i += 1;
        assert(out@ =~= s@.subrange(start as int, i as int));
    }
    out
}

/// `s` without leading and trailing white space.
pub fn trim(s: &[char]) -> (r: Vec<char>)
    ensures
        r@ == trimmed(s@),
{
    let n = s.len();
    let mut i: usize = 0;
    assert(s@.subrange(0, n as int) =~= s@);
    while i < n && is_whitespace(s[i])
        invariant
            i <= n == s@.len(),
            trim_start(s@) == trim_start(s@.subrange(i as int, n as int)),
        decreases n - i,
    {
        assert(s@.subrange(i as int, n as int).drop_first() =~= s@.subrange(i + 1, n as int));
        i += 1;
    }
    assert(trim_start(s@) == s@.subrange(i as int, n as int));
    let mut j: usize = n;
    while j > i && is_whitespace(s[j - 1])
        invariant
            i <= j <= n == s@.len(),
            trimmed(s@) == trim_end(s@.subrange(i as int, j as int)),
        decreases j,
    {
        assert(s@.subrange(i as int, j as int).drop_last() =~= s@.subrange(i as int, j - 1));
        j -= 1;
    }
    copy_range(s, i, j)
}

/// The pieces of `s` between occurrences of `sep` (one piece when `sep` does
/// not occur; empty pieces are kept).
pub open spec fn split_on(s: Seq<char>, sep: char) -> Seq<Seq<char>>
    decreases s.len(),
{
    if s.len() == 0 {
        seq![Seq::<char>::empty()]
    } else {
        let prev = split_on(s.drop_last(), sep);
        if s.last() == sep {
            prev.push(Seq::<char>::empty())
        } else {
            prev.update(prev.len() - 1, prev.last().push(s.last()))
        }
    }
}

proof fn lemma_split_nonempty(s: Seq<char>, sep: char)
    ensures
        split_on(s, sep).len() >= 1,
    decreases s.len(),
{
    if s.len() > 0 {
        lemma_split_nonempty(s.drop_last(), sep);
    }
}

/// The character sequences held by a vector of character vectors.
pub open spec fn views(v: Seq<Vec<char>>) -> Seq<Seq<char>> {
    v.map_values(|x: Vec<char>| x@)
}

/// The pieces of `s` between occurrences of `sep`, as `str::split` gives them.
pub fn split_fields(s: &[char], sep: char) -> (r: Vec<Vec<char>>)
    ensures
        views(r@) == split_on(s@, sep),
{
    let mut pieces: Vec<Vec<char>> = Vec::new();
    let mut cur: Vec<char> = Vec::new();
    let mut i: usize = 0;
    assert(s@.take(0) =~= Seq::<char>::empty());
    assert(views(pieces@).push(cur@) =~= split_on(s@.take(0), sep));
    while i < s.len()
        invariant
            i <= s@.len(),
            views(pieces@).push(cur@) == split_on(s@.take(i as int), sep),
        decreases s@.len() - i,
    {
        let c = s[i];
        proof {
            assert(s@.take(i + 1).drop_last() =~= s@.take(i as int));
            lemma_split_nonempty(s@.take(i as int), sep);
        }
        let ghost prev = split_on(s@.take(i as int), sep);
        if c == sep {
            let done = cur;
            pieces.push(done);
            cur = Vec::new();
            assert(views(pieces@).push(cur@) =~= prev.push(Seq::<char>::empty()));
        } else {
            cur.push(c);
            assert(views(pieces@).push(cur@) =~= prev.update(prev.len() - 1, prev.last().push(c)));
        }
        i += 1;
    }
    assert(s@.take(s@.len() as int) =~= s@);
    pieces.push(cur);
    assert(views(pieces@) =~= split_on(s@, sep));
    pieces
}

/// `l` without one trailing carriage return.
pub open spec fn strip_cr(l: Seq<char>) -> Seq<char> {
    if l.len() > 0 && l.last() == '\r' {
        l.drop_last()
    } else {
        l
    }
}

/// The lines of `s` as `str::lines` gives them: split at `\n`, a `\r` before
/// a `\n` removed, and no empty line after a final `\n`.
pub open spec fn lines_of(s: Seq<char>) -> Seq<Seq<char>> {
    let p = split_on(s, '\n');
    let body = p.take(p.len() - 1).map_values(|l: Seq<char>| strip_cr(l));
    if p.last().len() == 0 {
        body
    } else {
        body.push(p.last())
    }
}

/// The lines of a text.
pub fn split_lines(s: &[char]) -> (r: Vec<Vec<char>>)
    ensures
        views(r@) == lines_of(s@),
{
    let pieces = split_fields(s, '\n');
    proof {
        lemma_split_nonempty(s@, '\n');
    }
    let ghost p = split_on(s@, '\n');
    let n = pieces.len();
    let mut out: Vec<Vec<char>> = Vec::new();
    let mut i: usize = 0;
    while i + 1 < n
        invariant
            n == pieces@.len() == p.len() >= 1,
            views(pieces@) == p,
            i + 1 <= n,
            views(out@) == p.take(i as int).map_values(|l: Seq<char>| strip_cr(l)),
        decreases n - i,
    {
        let piece = &pieces[i];
        assert(piece@ == p[i as int]);
        let len = piece.len();
        let line = if len > 0 && piece[len - 1] == '\r' {
            copy_range(piece.as_slice(), 0, len - 1)
        } else {
            copy_range(piece.as_slice(), 0, len)
        };
        assert(line@ == strip_cr(p[i as int])) by {
            assert(piece@.drop_last() =~= piece@.subrange(0, len - 1));
            assert(piece@ =~= piece@.subrange(0, len as int));
        }
        let ghost before = out@;
        out.push(line);
        proof {
            assert(out@ == before.push(line));
            assert(views(out@) =~= views(before).push(line@));
            assert(p.take(i + 1).map_values(|l: Seq<char>| strip_cr(l)) =~= p.take(i as int).map_values(
                |l: Seq<char>| strip_cr(l),
            ).push(strip_cr(p[i as int])));
        }
        i += 1;
    }
    let last = &pieces[n - 1];
    assert(last@ == p.last());
    if last.len() > 0 {
        let copy = copy_range(last.as_slice(), 0, last.len());
        assert(last@ =~= last@.subrange(0, last@.len() as int));
        out.push(copy);
        assert(views(out@) =~= lines_of(s@));
    } else {
        assert(views(out@) =~= lines_of(s@));
    }
    out
}

// ── Dataset manifest ─────────────────────────────────────────────────────────

/// A labelled audio file of the data set.
#[derive(Clone, Debug)]
pub struct ManifestEntry {
    pub path: Vec<char>,
    pub label: Label,
}

/// The entry described by one manifest line under the audio directory `base`:
/// comma-separated columns, at least four of them; the file name is the first
/// column and the gender the third from last (both trimmed), which must be
/// `male` or `female`.
pub open spec fn entry_of(line: Seq<char>, base: Seq<char>) -> Option<(Seq<char>, Label)> {
    let parts = split_on(line, ',');
    let n = parts.len();
    if n < 4 {
        None
    } else {
        match gender_label(trimmed(parts[n - 3])) {
            Some(l) => Some((base + seq!['/'] + trimmed(parts[0]), l)),
            None => None,
        }
    }
}

/// The entries described by the non-blank lines among `ls`, in order.
pub open spec fn entries_from(ls: Seq<Seq<char>>, base: Seq<char>) -> Seq<(Seq<char>, Label)>
    decreases ls.len(),
{
    if ls.len() == 0 {
        Seq::empty()
    } else {
        let prev = entries_from(ls.drop_last(), base);
        if trimmed(ls.last()).len() > 0 && entry_of(ls.last(), base) is Some {
            prev.push(entry_of(ls.last(), base)->0)
        } else {
            prev
        }
    }
}

/// The labelled audio files listed by a CSV manifest: its first line is a
/// header; blank lines and lines without a usable gender are skipped.
pub open spec fn manifest_entries(text: Seq<char>, base: Seq<char>) -> Seq<(Seq<char>, Label)> {
    let ls = lines_of(text);
    entries_from(if ls.len() == 0 { ls } else { ls.drop_first() }, base)
}

/// `c` does not occur in `s`.
pub open spec fn lacks(s: Seq<char>, c: char) -> bool {
    forall|i: int| 0 <= i < s.len() ==> s[i] != c
}

/// The fields joined with `sep` between consecutive ones.
pub open spec fn join_fields(fields: Seq<Seq<char>>, sep: char) -> Seq<char>
    decreases fields.len(),
{
    if fields.len() == 0 {
        Seq::empty()
    } else if fields.len() == 1 {
        fields[0]
    } else {
        join_fields(fields.drop_last(), sep) + seq![sep] + fields.last()
    }
}

/// Appending text without the separator extends the last piece.
proof fn lemma_split_append(s: Seq<char>, f: Seq<char>, sep: char)
    requires
        lacks(f, sep),
    ensures
        split_on(s + f, sep) == split_on(s, sep).update(
            split_on(s, sep).len() - 1,
            split_on(s, sep).last() + f,
        ),
    decreases f.len(),
{
    lemma_split_nonempty(s, sep);
    let ps = split_on(s, sep);
    if f.len() == 0 {
        assert(s + f =~= s);
        assert(ps.last() + f =~= ps.last());
        assert(ps.update(ps.len() - 1, ps.last() + f) =~= ps);
    } else {
        let g = f.drop_last();
        let c = f.last();
        assert(lacks(g, sep));
        assert(c != sep);
        lemma_split_append(s, g, sep);
        assert((s + f).drop_last() =~= s + g);
        assert((s + f).last() == c);
        let prev = split_on(s + g, sep);
        assert(prev.len() == ps.len());
        assert(prev.last() == ps.last() + g);
        assert((ps.last() + g).push(c) =~= ps.last() + f);
        assert(split_on(s + f, sep) == prev.update(prev.len() - 1, prev.last().push(c)));
        assert(split_on(s + f, sep) =~= ps.update(ps.len() - 1, ps.last() + f));
    }
}

/// Appending the separator starts a new, empty piece.
proof fn lemma_split_sep(s: Seq<char>, sep: char)
    ensures
        split_on(s + seq![sep], sep) == split_on(s, sep).push(Seq::<char>::empty()),
{
    assert((s + seq![sep]).drop_last() =~= s);
    assert((s + seq![sep]).last() == sep);
}

/// Text without the separator is a single piece.
proof fn lemma_split_single(f: Seq<char>, sep: char)
    requires
        lacks(f, sep),
    ensures
        split_on(f, sep) == seq![f],
{
    lemma_split_append(Seq::<char>::empty(), f, sep);
    assert(Seq::<char>::empty() + f =~= f);
    assert(Seq::<char>::empty() + f =~= f);
    assert(seq![Seq::<char>::empty()].update(0, Seq::<char>::empty() + f) =~= seq![f]);
}

/// Splitting undoes joining: fields free of the separator, joined with it,
/// split back into the same fields.
pub proof fn lemma_split_join(fields: Seq<Seq<char>>, sep: char)
    requires
        fields.len() >= 1,
        forall|i: int| 0 <= i < fields.len() ==> lacks(#[trigger] fields[i], sep),
    ensures
        split_on(join_fields(fields, sep), sep) == fields,
    decreases fields.len(),
{
    if fields.len() == 1 {
        assert(lacks(fields[0], sep));
        lemma_split_single(fields[0], sep);
        assert(seq![fields[0]] =~= fields);
    } else {
        let front = fields.drop_last();
        assert forall|i: int| 0 <= i < front.len() implies lacks(#[trigger] front[i], sep) by {
            assert(front[i] == fields[i]);
        }
        lemma_split_join(front, sep);
        let j = join_fields(front, sep);
        lemma_split_sep(j, sep);
        assert(lacks(fields.last(), sep));
        lemma_split_append(j + seq![sep], fields.last(), sep);
        let q = front.push(Seq::<char>::empty());
        assert(q.last() + fields.last() =~= fields.last());
        assert(q.update(q.len() - 1, q.last() + fields.last()) =~= fields);
    }
}

/// A manifest line's entry: the first comma-separated column, trimmed, is the
/// file (under `base`), and the third column from the end, trimmed, is the
/// gender, whatever the number of columns (at least four).
pub proof fn lemma_entry_columns(fields: Seq<Seq<char>>, base: Seq<char>)
    requires
        fields.len() >= 1,
        forall|i: int| 0 <= i < fields.len() ==> lacks(#[trigger] fields[i], ','),
    ensures
        fields.len() < 4 ==> entry_of(join_fields(fields, ','), base) is None,
        fields.len() >= 4 ==> entry_of(join_fields(fields, ','), base) == match gender_label(
            trimmed(fields[fields.len() - 3]),
        ) {
            Some(l) => Some((base + seq!['/'] + trimmed(fields[0]), l)),
            None => None::<(Seq<char>, Label)>,
        },
{
    lemma_split_join(fields, ',');
}

/// The entries that one manifest line contributes: its entry, unless the
/// line is blank or has none.
pub open spec fn line_entries(line: Seq<char>, base: Seq<char>) -> Seq<(Seq<char>, Label)> {
    if trimmed(line).len() > 0 && entry_of(line, base) is Some {
        seq![entry_of(line, base)->0]
    } else {
        Seq::empty()
    }
}

proof fn lemma_lines_of_terminated(t: Seq<char>)
    requires
        t.len() > 0,
        t.last() == '\n',
    ensures
        split_on(t, '\n').len() >= 2,
        split_on(t, '\n').last() == Seq::<char>::empty(),
        lines_of(t) == split_on(t, '\n').take(split_on(t, '\n').len() - 1).map_values(|l: Seq<char>| strip_cr(l)),
        lines_of(t).len() >= 1,
{
    lemma_split_nonempty(t.drop_last(), '\n');
}

/// The lines of a text ending in a newline, followed by one more line
/// without a newline: that line is the last line.
pub proof fn lemma_lines_unterminated_last(t: Seq<char>, l: Seq<char>)
    requires
        t.len() > 0,
        t.last() == '\n',
        l.len() > 0,
        lacks(l, '\n'),
    ensures
        lines_of(t + l) == lines_of(t).push(l),
{
    lemma_lines_of_terminated(t);
    let pt = split_on(t, '\n');
    let k = pt.len() - 1;
    lemma_split_append(t, l, '\n');
    let p = split_on(t + l, '\n');
    assert(pt.last() + l =~= l);
    assert(p == pt.update(k, l));
    assert(p.take(p.len() - 1) =~= pt.take(k));
    assert(p.last() == l);
}

/// The lines of a text ending in a newline, followed by a newline-terminated
/// line: that line, without a carriage return before its newline, is the last.
pub proof fn lemma_lines_terminated_last(t: Seq<char>, l: Seq<char>)
    requires
        t.len() > 0,
        t.last() == '\n',
        lacks(l, '\n'),
    ensures
        lines_of(t + l + seq!['\n']) == lines_of(t).push(strip_cr(l)),
{
    lemma_lines_of_terminated(t);
    let pt = split_on(t, '\n');
    let k = pt.len() - 1;
    lemma_split_append(t, l, '\n');
    lemma_split_sep(t + l, '\n');
    let q = pt.update(k, pt.last() + l);
    assert(pt.last() + l =~= l);
    let p = split_on(t + l + seq!['\n'], '\n');
    assert(p == q.push(Seq::<char>::empty()));
    assert(p.take(p.len() - 1) =~= q);
    assert(q.map_values(|x: Seq<char>| strip_cr(x)) =~= pt.take(k).map_values(|x: Seq<char>| strip_cr(x)).push(
        strip_cr(l),
    ));
}

proof fn lemma_entries_push(ls: Seq<Seq<char>>, l: Seq<char>, base: Seq<char>)
    ensures
        entries_from(ls.push(l), base) == entries_from(ls, base) + line_entries(l, base),
{
    assert(ls.push(l).drop_last() =~= ls);
    assert(ls.push(l).last() == l);
    if trimmed(l).len() > 0 && entry_of(l, base) is Some {
        assert(entries_from(ls, base).push(entry_of(l, base)->0) =~= entries_from(ls, base) + seq![
            entry_of(l, base)->0,
        ]);
    } else {
        assert(entries_from(ls, base) =~= entries_from(ls, base) + Seq::<(Seq<char>, Label)>::empty());
    }
}

/// A manifest made of only a header line has no entries.
pub proof fn lemma_manifest_header_only(h: Seq<char>, base: Seq<char>)
    requires
        lacks(h, '\n'),
    ensures
        manifest_entries(h + seq!['\n'], base) == Seq::<(Seq<char>, Label)>::empty(),
{
    lemma_split_single(h, '\n');
    lemma_split_sep(h, '\n');
    let p = split_on(h + seq!['\n'], '\n');
    assert(p.take(p.len() - 1) =~= seq![h]);
    assert(lines_of(h + seq!['\n']).len() == 1);
    assert(lines_of(h + seq!['\n']).drop_first() =~= Seq::<Seq<char>>::empty());
}

/// Each line after the header adds its own entries at the end: a last line
/// without a trailing newline counts like any other, and a line ending in a
/// newline counts without the carriage return before it.
pub proof fn lemma_manifest_appended_line(t: Seq<char>, l: Seq<char>, base: Seq<char>)
    requires
        t.len() > 0,
        t.last() == '\n',
        lacks(l, '\n'),
    ensures
        l.len() > 0 ==> manifest_entries(t + l, base) == manifest_entries(t, base) + line_entries(l, base),
        manifest_entries(t + l + seq!['\n'], base) == manifest_entries(t, base) + line_entries(strip_cr(l), base),
{
    lemma_lines_of_terminated(t);
    let ls = lines_of(t);
    if l.len() > 0 {
        lemma_lines_unterminated_last(t, l);
        assert(ls.push(l).drop_first() =~= ls.drop_first().push(l));
        lemma_entries_push(ls.drop_first(), l, base);
    }
    lemma_lines_terminated_last(t, l);
    assert(ls.push(strip_cr(l)).drop_first() =~= ls.drop_first().push(strip_cr(l)));
    lemma_entries_push(ls.drop_first(), strip_cr(l), base);
}

/// The entry described by one manifest line under the audio directory `base`.
pub fn parse_entry(line: &[char], base: &[char]) -> (r: Option<ManifestEntry>)
    ensures
        match entry_of(line@, base@) {
            Some((path, label)) => (r matches Some(e) && e.path@ == path && e.label == label),
            None => r is None,
        },
{
    let parts = split_fields(line, ',');
    let n = parts.len();
    proof {
        assert(views(parts@).len() == n);
    }
    if n < 4 {
        return None;
    }
    assert(parts@[n - 3]@ == split_on(line@, ',')[n - 3]);
    assert(parts@[0]@ == split_on(line@, ',')[0]);
    let gender = trim(parts[n - 3].as_slice());
    match Label::from_gender(gender.as_slice()) {
        None => None,
        Some(label) => {
            let name = trim(parts[0].as_slice());
            let mut path: Vec<char> = Vec::new();
            let mut i: usize = 0;
            while i < base.len()
                invariant
                    i <= base@.len(),
                    path@ == base@.take(i as int),
                decreases base@.len() - i,
            {
                path.push(base[i]);
                i += 1;
                assert(path@ =~= base@.take(i as int));
            }
            assert(base@.take(base@.len() as int) =~= base@);
            path.push('/');
            let mut k: usize = 0;
            while k < name.len()
                invariant
                    k <= name@.len(),
                    path@ == base@ + seq!['/'] + name@.take(k as int),
                decreases name@.len() - k,
            {
                path.push(name[k]);
                k += 1;
                assert(path@ =~= base@ + seq!['/'] + name@.take(k as int));
            }
            assert(name@.take(name@.len() as int) =~= name@);
            Some(ManifestEntry { path, label })
        },
    }
}

/// Whether a line holds only white space.
fn is_blank(line: &[char]) -> (r: bool)
    ensures
        r == (trimmed(line@).len() == 0),
{
    let t = trim(line);
    t.len() == 0
}

/// The labelled audio files listed by a CSV manifest whose audio files lie
/// under the directory `base`.
pub fn parse_manifest(text: &[char], base: &[char]) -> (r: Vec<ManifestEntry>)
    ensures
        r@.len() == manifest_entries(text@, base@).len(),
        forall|i: int|
            0 <= i < r@.len() ==> (#[trigger] r@[i]).path@ == manifest_entries(text@, base@)[i].0 && r@[i].label
                == manifest_entries(text@, base@)[i].1,
{
    let lines = split_lines(text);
    let ghost ls = lines_of(text@);
    let ghost body = if ls.len() == 0 {
        ls
    } else {
        ls.drop_first()
    };
    let mut out: Vec<ManifestEntry> = Vec::new();
    if lines.len() == 0 {
        assert(entries_from(body, base@) =~= Seq::<(Seq<char>, Label)>::empty());
        return out;
    }
    let mut i: usize = 1;
    assert(body.take(0) =~= Seq::<Seq<char>>::empty());
    while i < lines.len()
        invariant
            views(lines@) == ls,
            ls.len() >= 1,
            body == ls.drop_first(),
            1 <= i <= lines@.len(),
            out@.len() == entries_from(body.take(i - 1), base@).len(),
            forall|k: int|
                0 <= k < out@.len() ==> (#[trigger] out@[k]).path@ == entries_from(body.take(i - 1), base@)[k].0
                    && out@[k].label == entries_from(body.take(i - 1), base@)[k].1,
        decreases lines@.len() - i,
    {
        let line = &lines[i];
        assert(line@ == body[i - 1]);
        assert(body.take(i as int).drop_last() =~= body.take(i - 1));
        assert(body.take(i as int).last() == body[i - 1]);
        if !is_blank(line.as_slice()) {
            match parse_entry(line.as_slice(), base) {
                Some(e) => {
                    out.push(e);
                },
                None => {},
            }
        }
        i += 1;
    }
    assert(body.take(lines@.len() - 1) =~= body);
    out
}

/// `s` with every trailing `.csv` removed.
pub open spec fn strip_csv(s: Seq<char>) -> Seq<char>
    decreases s.len(),
{
    if s.len() >= 4 && s.subrange(s.len() - 4, s.len() as int) == seq!['.', 'c', 's', 'v'] {
        strip_csv(s.subrange(0, s.len() - 4))
    } else {
        s
    }
}

/// The path of the cached features of a manifest: its path without trailing
/// `.csv` extensions, followed by `.cache.bin`.
pub open spec fn cache_path_of(csv_path: Seq<char>) -> Seq<char> {
    strip_csv(csv_path) + seq!['.', 'c', 'a', 'c', 'h', 'e', '.', 'b', 'i', 'n']
}

/// A cache path ends with `.cache.bin` after a stem that no longer ends
/// with `.csv`, and paths without a `.csv` extension are kept whole.
pub proof fn lemma_cache_path(csv_path: Seq<char>)
    ensures
        cache_path_of(csv_path).len() >= 10,
        cache_path_of(csv_path).subrange(cache_path_of(csv_path).len() - 10, cache_path_of(csv_path).len() as int)
            == seq!['.', 'c', 'a', 'c', 'h', 'e', '.', 'b', 'i', 'n'],
        !(strip_csv(csv_path).len() >= 4 && strip_csv(csv_path).subrange(
            strip_csv(csv_path).len() - 4,
            strip_csv(csv_path).len() as int,
        ) == seq!['.', 'c', 's', 'v']),
        strip_csv(csv_path).len() <= csv_path.len(),
        strip_csv(csv_path) == csv_path.subrange(0, strip_csv(csv_path).len() as int),
        !(csv_path.len() >= 4 && csv_path.subrange(csv_path.len() - 4, csv_path.len() as int) == seq!['.', 'c', 's', 'v'])
            ==> strip_csv(csv_path) == csv_path,
    decreases csv_path.len(),
{
    let stem = strip_csv(csv_path);
    let suffix = seq!['.', 'c', 'a', 'c', 'h', 'e', '.', 'b', 'i', 'n'];
    assert((stem + suffix).subrange(stem.len() as int, stem.len() + 10int) =~= suffix);
    if csv_path.len() >= 4 && csv_path.subrange(csv_path.len() - 4, csv_path.len() as int) == seq!['.', 'c', 's', 'v'] {
        let shorter = csv_path.subrange(0, csv_path.len() - 4);
        lemma_cache_path(shorter);
        assert(stem == strip_csv(shorter));
        assert(shorter.subrange(0, stem.len() as int) =~= csv_path.subrange(0, stem.len() as int));
    } else {
        assert(csv_path.subrange(0, csv_path.len() as int) =~= csv_path);
    }
}

/// The path of the cached features of a manifest.
pub fn cache_path(csv_path: &[char]) -> (r: Vec<char>)
    ensures
        r@ == cache_path_of(csv_path@),
{
    let mut end = csv_path.len();
    assert(csv_path@.subrange(0, end as int) =~= csv_path@);
    while end >= 4 && csv_path[end - 4] == '.' && csv_path[end - 3] == 'c' && csv_path[end - 2] == 's' && csv_path[end
        - 1] == 'v'
        invariant
            end <= csv_path@.len(),
            strip_csv(csv_path@) == strip_csv(csv_path@.subrange(0, end as int)),
        decreases end,
    {
        let ghost t = csv_path@.subrange(0, end as int);
        assert(t.subrange(t.len() - 4, t.len() as int) =~= seq!['.', 'c', 's', 'v']);
        assert(t.subrange(0, t.len() - 4) =~= csv_path@.subrange(0, end - 4));
        end -= 4;
    }
    let ghost t = csv_path@.subrange(0, end as int);
    if end >= 4 {
        assert(t.subrange(t.len() - 4, t.len() as int) != seq!['.', 'c', 's', 'v']) by {
            if t.subrange(t.len() - 4, t.len() as int) == seq!['.', 'c', 's', 'v'] {
                assert(t.subrange(t.len() - 4, t.len() as int)[0] == csv_path@[end - 4]);
                assert(t.subrange(t.len() - 4, t.len() as int)[1] == csv_path@[end - 3]);
                assert(t.subrange(t.len() - 4, t.len() as int)[2] == csv_path@[end - 2]);
                assert(t.subrange(t.len() - 4, t.len() as int)[3] == csv_path@[end - 1]);
            }
        }
    }
    let mut out = copy_range(csv_path, 0, end);
    let suffix = ['.', 'c', 'a', 'c', 'h', 'e', '.', 'b', 'i', 'n'];
    let mut k: usize = 0;
    while k < 10
        invariant
            suffix@ == seq!['.', 'c', 'a', 'c', 'h', 'e', '.', 'b', 'i', 'n'],
            k <= 10,
            out@ == strip_csv(csv_path@) + suffix@.take(k as int),
        decreases 10 - k,
    {
        out.push(suffix[k]);
        k += 1;
        assert(out@ =~= strip_csv(csv_path@) + suffix@.take(k as int));
    }
    assert(suffix@.take(10) =~= suffix@);
    out
}

// ── Command line ─────────────────────────────────────────────────────────────

/// What the program is asked to do.
#[derive(Clone, Debug)]
pub enum Command {
    /// Evaluate the weights at the given path on the test set.
    Evaluate(Vec<char>),
    /// Save spectrogram and activation images for the weights at the given path.
    Visualize(Vec<char>),
    /// Train a model and evaluate it.
    Train,
}

/// The command selected by the program arguments (the first is the program):
/// `--eval <weights>` or `--visualize <weights>`, anything else trains.
pub open spec fn command_kind(args: Seq<Seq<char>>) -> int {
    if args.len() == 3 && args[1] == seq!['-', '-', 'e', 'v', 'a', 'l'] {
        0
    } else if args.len() == 3 && args[1] == seq!['-', '-', 'v', 'i', 's', 'u', 'a', 'l', 'i', 'z', 'e'] {
        1
    } else {
        2
    }
}

/// The command selected by the program arguments.
pub fn parse_command(args: &[Vec<char>]) -> (r: Command)
    ensures
        command_kind(views(args@)) == 0 ==> (r matches Command::Evaluate(p) && p@ == args@[2]@),
        command_kind(views(args@)) == 1 ==> (r matches Command::Visualize(p) && p@ == args@[2]@),
        command_kind(views(args@)) == 2 ==> r is Train,
{
    if args.len() != 3 {
        return Command::Train;
    }
    let eval = ['-', '-', 'e', 'v', 'a', 'l'];
    let visualize = ['-', '-', 'v', 'i', 's', 'u', 'a', 'l', 'i', 'z', 'e'];
    assert(views(args@)[1] == args@[1]@);
    proof {
        assert(eval@ =~= seq!['-', '-', 'e', 'v', 'a', 'l']);
        assert(visualize@ =~= seq!['-', '-', 'v', 'i', 's', 'u', 'a', 'l', 'i', 'z', 'e']);
    }
    let path = copy_range(args[2].as_slice(), 0, args[2].len());
    assert(args@[2]@ =~= args@[2]@.subrange(0, args@[2]@.len() as int));
    if chars_equal(args[1].as_slice(), &eval) {
        Command::Evaluate(path)
    } else if chars_equal(args[1].as_slice(), &visualize) {
        Command::Visualize(path)
    } else {
        Command::Train
    }
}

} // verus!
