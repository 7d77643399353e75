//! A verified tokenizer for the Debian-style control-file format.
//!
//! A document is a sequence of lines. Blank lines (empty or all-whitespace)
//! separate paragraphs; a paragraph is a maximal run of non-blank lines.
//! Within a paragraph, a line either starts a field (`Key: value`, with a
//! nonempty key that holds no colon and no leading whitespace) or continues
//! the previous field's value (it starts with whitespace); the continuation
//! line is appended verbatim after a newline. Any other line is a structural
//! error that rejects the whole document.

use vstd::prelude::*;

use crate::is_ws;

verus! {

/// A blank line: every character is horizontal whitespace (so the empty
/// line is blank too).
pub open spec fn is_blank(l: Seq<char>) -> bool {
    forall|i: int| 0 <= i < l.len() ==> is_ws(#[trigger] l[i])
}

/// The lines of a document, split on `'\n'`. A document always has at least
/// one line; a trailing newline produces a final empty line.
pub open spec fn split_lines(s: Seq<char>) -> Seq<Seq<char>>
    decreases s.len(),
{
    if s.len() == 0 {
        seq![Seq::<char>::empty()]
    } else if s.last() == '\n' {
        split_lines(s.drop_last()).push(Seq::<char>::empty())
    } else {
        let rest = split_lines(s.drop_last());
        rest.update(rest.len() - 1, rest.last().push(s.last()))
    }
}

pub proof fn lemma_split_lines_nonempty(s: Seq<char>)
    ensures
        split_lines(s).len() >= 1,
    decreases s.len(),
{
    if s.len() > 0 {
        lemma_split_lines_nonempty(s.drop_last());
    }
}

/// The position of the first colon in a line, or the line's length when the
/// line holds none.
pub open spec fn colon_idx(l: Seq<char>) -> int
    decreases l.len(),
{
    if l.len() == 0 {
        0
    } else if l.first() == ':' {
        0
    } else {
        1 + colon_idx(l.drop_first())
    }
}

pub proof fn lemma_colon_idx(l: Seq<char>)
    ensures
        0 <= colon_idx(l) <= l.len(),
        colon_idx(l) < l.len() ==> l[colon_idx(l)] == ':',
        forall|j: int| 0 <= j < colon_idx(l) ==> l[j] != ':',
        forall|j: int| 0 <= j < l.len() && l[j] == ':' ==> colon_idx(l) <= j,
    decreases l.len(),
{
    if l.len() > 0 && l.first() != ':' {
        lemma_colon_idx(l.drop_first());
        let d = l.drop_first();
        assert forall|j: int| 0 <= j < colon_idx(l) implies l[j] != ':' by {
            if j >= 1 {
                assert(l[j] == d[j - 1]);
                assert(d[j - 1] != ':');
            }
        }
        assert forall|j: int| 0 <= j < l.len() && l[j] == ':' implies colon_idx(l) <= j by {
            if j >= 1 {
                assert(d[j - 1] == ':');
            }
        }
    }
}

/// A value with its leading whitespace removed.
pub open spec fn strip_ws(l: Seq<char>) -> Seq<char>
    decreases l.len(),
{
    if l.len() > 0 && is_ws(l.first()) {
        strip_ws(l.drop_first())
    } else {
        l
    }
}

/// A line that starts a field: nonempty, no leading whitespace, a colon after
/// a nonempty key.
pub open spec fn is_field_line(l: Seq<char>) -> bool {
    &&& l.len() > 0
    &&& !is_ws(l[0])
    &&& 0 < colon_idx(l) < l.len()
}

/// The key of a field line: everything before the first colon.
pub open spec fn line_key(l: Seq<char>) -> Seq<char> {
    l.subrange(0, colon_idx(l))
}

/// The value on a field line: everything after the first colon, with leading
/// whitespace removed.
pub open spec fn line_val(l: Seq<char>) -> Seq<char> {
    strip_ws(l.subrange(colon_idx(l) + 1, l.len() as int))
}

/// A continuation line: it starts with whitespace but is not blank.
pub open spec fn is_cont_line(l: Seq<char>) -> bool {
    l.len() > 0 && is_ws(l[0]) && !is_blank(l)
}

/// The fields of one paragraph, given its lines (all non-blank). A field
/// line appends a fresh `(key, value)` pair; a continuation line extends the
/// value of the last field with a newline and the continuation line verbatim;
/// anything else (including a continuation with no preceding field) is a
/// structural error.
pub open spec fn parse_para(lines: Seq<Seq<char>>) -> Option<Seq<(Seq<char>, Seq<char>)>>
    decreases lines.len(),
{
    if lines.len() == 0 {
        Some(Seq::<(Seq<char>, Seq<char>)>::empty())
    } else {
        match parse_para(lines.drop_last()) {
            None => None,
            Some(fs) => {
                let l = lines.last();
                if is_field_line(l) {
                    Some(fs.push((line_key(l), line_val(l))))
                } else if is_cont_line(l) {
                    if fs.len() == 0 {
                        None
                    } else {
                        let last = fs.last();
                        Some(fs.update(fs.len() - 1, (last.0, last.1 + seq!['\n'] + l)))
                    }
                } else {
                    None
                }
            },
        }
    }
}

/// Groups a document's lines into paragraphs: the first component holds the
/// closed paragraphs (maximal non-blank runs ended by a blank line), the
/// second the still-open run at the end.
pub open spec fn split_paras(lines: Seq<Seq<char>>) -> (Seq<Seq<Seq<char>>>, Seq<Seq<char>>)
    decreases lines.len(),
{
    if lines.len() == 0 {
        (Seq::<Seq<Seq<char>>>::empty(), Seq::<Seq<char>>::empty())
    } else {
        let r = split_paras(lines.drop_last());
        let l = lines.last();
        if is_blank(l) {
            if r.1.len() == 0 {
                (r.0, Seq::<Seq<char>>::empty())
            } else {
                (r.0.push(r.1), Seq::<Seq<char>>::empty())
            }
        } else {
            (r.0, r.1.push(l))
        }
    }
}

/// All paragraphs of a document's lines, the open final run included.
pub open spec fn para_groups(lines: Seq<Seq<char>>) -> Seq<Seq<Seq<char>>> {
    let r = split_paras(lines);
    if r.1.len() == 0 {
        r.0
    } else {
        r.0.push(r.1)
    }
}

/// Parses every paragraph group; `None` as soon as one group is malformed.
pub open spec fn parse_groups(gs: Seq<Seq<Seq<char>>>) -> Option<
    Seq<Seq<(Seq<char>, Seq<char>)>>,
>
    decreases gs.len(),
{
    if gs.len() == 0 {
        Some(Seq::<Seq<(Seq<char>, Seq<char>)>>::empty())
    } else {
        match (parse_groups(gs.drop_last()), parse_para(gs.last())) {
            (Some(ps), Some(p)) => Some(ps.push(p)),
            _ => None,
        }
    }
}

/// What parsing a whole document means: split into lines, group the lines
/// into paragraphs, and parse each paragraph into its ordered fields.
pub open spec fn spec_parse_control(s: Seq<char>) -> Option<Seq<Seq<(Seq<char>, Seq<char>)>>> {
    parse_groups(para_groups(split_lines(s)))
}

/// One field of a control-file paragraph: a key and its (possibly multi-line)
/// value.
pub struct Field {
    pub name: String,
    pub value: String,
}

pub open spec fn field_view(f: Field) -> (Seq<char>, Seq<char>) {
    (f.name@, f.value@)
}

pub open spec fn fields_view(fs: Seq<Field>) -> Seq<(Seq<char>, Seq<char>)> {
    fs.map_values(|f: Field| field_view(f))
}

pub open spec fn paras_view(ps: Seq<Vec<Field>>) -> Seq<Seq<(Seq<char>, Seq<char>)>> {
    ps.map_values(|p: Vec<Field>| fields_view(p@))
}

pub open spec fn strs_view(ls: Seq<String>) -> Seq<Seq<char>> {
    ls.map_values(|l: String| l@)
}

/// A paragraph whose lines reject already rejects under any extension: the
/// structural error cannot be healed by later lines.
proof fn lemma_parse_para_prefix_none(g: Seq<Seq<char>>, k: int)
    requires
        0 <= k <= g.len(),
        parse_para(g.subrange(0, k)) is None,
    ensures
        parse_para(g) is None,
    decreases g.len() - k,
{
    if k < g.len() {
        assert(g.subrange(0, k + 1).drop_last() =~= g.subrange(0, k));
        lemma_parse_para_prefix_none(g, k + 1);
    } else {
        assert(g.subrange(0, k) =~= g);
    }
}

/// One malformed paragraph rejects the whole document.
proof fn lemma_parse_groups_none(gs: Seq<Seq<Seq<char>>>, j: int)
    requires
        0 <= j < gs.len(),
        parse_para(gs[j]) is None,
    ensures
        parse_groups(gs) is None,
    decreases gs.len(),
{
    if j < gs.len() - 1 {
        lemma_parse_groups_none(gs.drop_last(), j);
    }
}

/// How the grouping of a prefix of the lines stands to the grouping of all of
/// them: the closed paragraphs so far are the first paragraphs of the whole
/// document, and the open run is a prefix of the next one.
proof fn lemma_split_paras_prefix(lines: Seq<Seq<char>>, i: int)
    requires
        0 <= i <= lines.len(),
    ensures
        split_paras(lines.subrange(0, i)).0.len() <= para_groups(lines).len(),
        forall|j: int|
            0 <= j < split_paras(lines.subrange(0, i)).0.len() ==> para_groups(lines)[j]
                == #[trigger] split_paras(lines.subrange(0, i)).0[j],
        split_paras(lines.subrange(0, i)).1.len() > 0 ==> {
            let c = split_paras(lines.subrange(0, i)).0;
            let cur = split_paras(lines.subrange(0, i)).1;
            &&& c.len() < para_groups(lines).len()
            &&& cur.len() <= para_groups(lines)[c.len() as int].len()
            &&& cur == para_groups(lines)[c.len() as int].subrange(0, cur.len() as int)
        },
    decreases lines.len() - i,
{
    let c = split_paras(lines.subrange(0, i)).0;
    let cur = split_paras(lines.subrange(0, i)).1;
    if i == lines.len() {
        assert(lines.subrange(0, i) =~= lines);
        if cur.len() > 0 {
            assert(para_groups(lines) == c.push(cur));
            assert(cur =~= para_groups(lines)[c.len() as int].subrange(0, cur.len() as int));
        }
    } else {
        lemma_split_paras_prefix(lines, i + 1);
        let pre = lines.subrange(0, i);
        let post = lines.subrange(0, i + 1);
        assert(post.drop_last() =~= pre);
        assert(post.last() == lines[i]);
        let c2 = split_paras(post).0;
        let cur2 = split_paras(post).1;
        if is_blank(lines[i]) {
            if cur.len() > 0 {
                assert(c2 == c.push(cur));
                assert(forall|j: int| 0 <= j < c.len() ==> c2[j] == #[trigger] c[j]);
                assert(c2[c.len() as int] == cur);
                assert(para_groups(lines)[c.len() as int] == c2[c.len() as int]);
                assert(cur =~= para_groups(lines)[c.len() as int].subrange(0, cur.len() as int));
            } else {
                assert(c2 == c);
            }
        } else {
            assert(c2 == c && cur2 == cur.push(lines[i]));
            if cur.len() > 0 {
                let g = para_groups(lines)[c.len() as int];
                assert(cur2 == g.subrange(0, cur2.len() as int));
                assert(cur =~= g.subrange(0, cur2.len() as int).subrange(0, cur.len() as int));
                assert(g.subrange(0, cur2.len() as int).subrange(0, cur.len() as int) =~= g.subrange(
                    0,
                    cur.len() as int,
                ));
            }
        }
    }
}

fn line_is_blank(l: &str) -> (r: bool)
    ensures
        r == is_blank(l@),
{
    let n = l.unicode_len();
    let mut i: usize = 0;
    while i < n
        invariant
            0 <= i <= n,
            n == l@.len(),
            forall|j: int| 0 <= j < i ==> is_ws(#[trigger] l@[j]),
        decreases n - i,
    {
        let c = l.get_char(i);
        if c != ' ' && c != '\t' {
            return false;
        }
        i += 1;
    }
    true
}

fn find_colon(l: &str) -> (r: usize)
    ensures
        r as int == colon_idx(l@),
{
    proof {
        lemma_colon_idx(l@);
    }
    let n = l.unicode_len();
    let mut i: usize = 0;
    while i < n
        invariant
            0 <= i <= n,
            n == l@.len(),
            colon_idx(l@) >= i,
        decreases n - i,
    {
        proof {
            lemma_colon_idx(l@);
        }
        let c = l.get_char(i);
        if c == ':' {
            return i;
        }
        proof {
            if colon_idx(l@) == i {
                assert(l@[i as int] == ':');
            }
        }
        i += 1;
    }
    n
}

fn ws_at(l: &str, j: usize) -> (r: bool)
    requires
        j < l@.len(),
    ensures
        r == is_ws(l@[j as int]),
{
    let c = l.get_char(j);
    c == ' ' || c == '\t'
}

/// The value text starting at position `k` of a line, with leading
/// whitespace removed.
fn value_after(l: &str, k: usize) -> (v: String)
    requires
        k <= l@.len(),
    ensures
        v@ == strip_ws(l@.subrange(k as int, l@.len() as int)),
{
    let n = l.unicode_len();
    let mut j = k;
    while j < n && ws_at(l, j)
        invariant
            k <= j <= n,
            n == l@.len(),
            strip_ws(l@.subrange(k as int, n as int)) == strip_ws(
                l@.subrange(j as int, n as int),
            ),
        decreases n - j,
    {
        proof {
            assert(l@.subrange(j as int, n as int).drop_first() =~= l@.subrange(j + 1, n as int));
        }
        j += 1;
    }
    proof {
        let tail = l@.subrange(j as int, n as int);
        if j < n {
            assert(tail.first() == l@[j as int]);
            assert(strip_ws(tail) == tail);
        } else {
            assert(tail.len() == 0);
            assert(strip_ws(tail) == tail);
        }
    }
    String::from_str(l.substring_char(j, n))
}

/// Splits a document into its lines on `'\n'`.
pub(crate) fn split_into_lines(s: &str) -> (lines: Vec<String>)
    ensures
        strs_view(lines@) == split_lines(s@),
{
    let n = s.unicode_len();
    let mut lines: Vec<String> = Vec::new();
    let mut start: usize = 0;
    let mut i: usize = 0;
    proof {
        assert(s@.subrange(0, 0) =~= Seq::<char>::empty());
        assert(strs_view(lines@).push(s@.subrange(0, 0)) =~= seq![Seq::<char>::empty()]);
    }
    while i < n
        invariant
            0 <= start <= i <= n,
            n == s@.len(),
            split_lines(s@.subrange(0, i as int)) =~= strs_view(lines@).push(
                s@.subrange(start as int, i as int),
            ),
        decreases n - i,
    {
        let ghost pre = s@.subrange(0, i as int);
        let ghost cur = s@.subrange(start as int, i as int);
        let c = s.get_char(i);
        if c == '\n' {
            let line = String::from_str(s.substring_char(start, i));
            proof {
                let post = s@.subrange(0, i + 1);
                assert(post.drop_last() =~= pre);
                assert(post.last() == '\n');
                assert(s@.subrange(i + 1, i + 1) =~= Seq::<char>::empty());
                assert(strs_view(lines@.push(line)) =~= strs_view(lines@).push(cur));
                assert(split_lines(post) =~= strs_view(lines@.push(line)).push(
                    s@.subrange(i + 1, i + 1),
                ));
            }
            lines.push(line);
            start = i + 1;
        } else {
            proof {
                let post = s@.subrange(0, i + 1);
                assert(post.drop_last() =~= pre);
                assert(post.last() == s@[i as int]);
                let rest = split_lines(pre);
                assert(rest == strs_view(lines@).push(cur));
                assert(rest.len() == strs_view(lines@).len() + 1);
                assert(rest.last() == cur);
                assert(cur.push(s@[i as int]) =~= s@.subrange(start as int, i + 1));
                assert(split_lines(post) =~= rest.update(rest.len() - 1, cur.push(s@[i as int])));
                assert(rest.update(rest.len() - 1, s@.subrange(start as int, i + 1)) =~= strs_view(
                    lines@,
                ).push(s@.subrange(start as int, i + 1)));
            }
        }
        i += 1;
    }
    let line = String::from_str(s.substring_char(start, n));
    proof {
        assert(s@.subrange(0, n as int) =~= s@);
        assert(strs_view(lines@.push(line)) =~= strs_view(lines@).push(
            s@.subrange(start as int, n as int),
        ));
    }
    lines.push(line);
    lines
}

/// One serialized field line: `key: value` terminated by a newline.
pub open spec fn field_line_v(k: Seq<char>, v: Seq<char>) -> Seq<char> {
    k + seq![':', ' '] + v + seq!['\n']
}

/// The serialized text of a paragraph's fields, one line per field.
pub open spec fn spec_serialize_fields(fs: Seq<(Seq<char>, Seq<char>)>) -> Seq<char>
    decreases fs.len(),
{
    if fs.len() == 0 {
        Seq::<char>::empty()
    } else {
        spec_serialize_fields(fs.drop_last()) + field_line_v(fs.last().0, fs.last().1)
    }
}

/// A key that serializes to a line the tokenizer reads back as the same key:
/// nonempty, no leading whitespace, and free of colons and newlines.
pub open spec fn wf_key(k: Seq<char>) -> bool {
    &&& k.len() > 0
    &&& !is_ws(k[0])
    &&& forall|i: int| 0 <= i < k.len() ==> #[trigger] k[i] != ':' && k[i] != '\n'
}

/// A value that serializes to a single line the tokenizer reads back
/// unchanged: no newline, and no leading whitespace (the parser strips it).
pub open spec fn wf_value(v: Seq<char>) -> bool {
    &&& v.len() > 0 ==> !is_ws(v[0])
    &&& forall|i: int| 0 <= i < v.len() ==> #[trigger] v[i] != '\n'
}

pub open spec fn wf_fields(fs: Seq<(Seq<char>, Seq<char>)>) -> bool {
    forall|i: int|
        0 <= i < fs.len() ==> wf_key(#[trigger] fs[i].0) && wf_value(fs[i].1)
}

/// Appends one `key: value` line to the output.
pub fn push_field_line(out: &mut String, key: &str, value: &str)
    ensures
        final(out)@ == old(out)@ + field_line_v(key@, value@),
{
    out.append(key);
    out.append(": ");
    out.append(value);
    out.append("\n");
    proof {
        reveal_strlit(": ");
        reveal_strlit("\n");
        assert(": "@ =~= seq![':', ' ']);
        assert("\n"@ =~= seq!['\n']);
        assert(old(out)@ + key@ + ": "@ + value@ + "\n"@ =~= old(out)@ + field_line_v(
            key@,
            value@,
        ));
    }
}

/// Appending one field line extends the serialization by that line.
pub proof fn lemma_serialize_fields_push(fs: Seq<(Seq<char>, Seq<char>)>, f: (Seq<char>, Seq<char>))
    ensures
        spec_serialize_fields(fs.push(f)) == spec_serialize_fields(fs) + field_line_v(f.0, f.1),
{
    assert(fs.push(f).drop_last() =~= fs);
}

/// The serialized line of one field, without its final newline.
pub open spec fn line_of(f: (Seq<char>, Seq<char>)) -> Seq<char> {
    f.0 + seq![':', ' '] + f.1
}

pub open spec fn lines_of_fields(fs: Seq<(Seq<char>, Seq<char>)>) -> Seq<Seq<char>> {
    fs.map_values(|f: (Seq<char>, Seq<char>)| line_of(f))
}

/// Appending newline-free text extends the last line and nothing else.
proof fn lemma_split_lines_no_nl(a: Seq<char>, b: Seq<char>)
    requires
        forall|i: int| 0 <= i < b.len() ==> #[trigger] b[i] != '\n',
    ensures
        split_lines(a + b) == split_lines(a).update(
            split_lines(a).len() - 1,
            split_lines(a).last() + b,
        ),
    decreases b.len(),
{
    lemma_split_lines_nonempty(a);
    let sa = split_lines(a);
    if b.len() == 0 {
        assert(a + b =~= a);
        assert(sa.last() + b =~= sa.last());
        assert(sa.update(sa.len() - 1, sa.last() + b) =~= sa);
    } else {
        let b2 = b.drop_last();
        assert(forall|i: int| 0 <= i < b2.len() ==> #[trigger] b2[i] != '\n');
        lemma_split_lines_no_nl(a, b2);
        let mid = a + b2;
        assert(a + b =~= mid.push(b.last()));
        assert(mid.push(b.last()).drop_last() =~= mid);
        assert(mid.push(b.last()).last() == b.last());
        assert(b.last() != '\n');
        let r2 = split_lines(mid);
        assert(split_lines(a + b) == r2.update(r2.len() - 1, r2.last() + seq![b.last()])) by {
            assert(split_lines(mid.push(b.last())) == r2.update(
                r2.len() - 1,
                r2.last().push(b.last()),
            ));
            assert(r2.last().push(b.last()) =~= r2.last() + seq![b.last()]);
        }
        assert(r2 == sa.update(sa.len() - 1, sa.last() + b2));
        assert(r2.len() == sa.len());
        assert(r2.last() == sa.last() + b2);
        assert((sa.last() + b2) + seq![b.last()] =~= sa.last() + b);
        assert(r2.update(r2.len() - 1, r2.last() + seq![b.last()]) =~= sa.update(
            sa.len() - 1,
            sa.last() + b,
        ));
    }
}

/// The serialization of well-formed fields splits into exactly one line per
/// field, plus the final empty line after the last newline.
proof fn lemma_serialize_split_lines(fs: Seq<(Seq<char>, Seq<char>)>)
    requires
        wf_fields(fs),
    ensures
        split_lines(spec_serialize_fields(fs)) == lines_of_fields(fs).push(Seq::<char>::empty()),
    decreases fs.len(),
{
    if fs.len() == 0 {
        assert(lines_of_fields(fs).push(Seq::<char>::empty()) =~= seq![Seq::<char>::empty()]);
    } else {
        let fs2 = fs.drop_last();
        let f = fs.last();
        assert(wf_fields(fs2)) by {
            assert(forall|i: int| 0 <= i < fs2.len() ==> fs2[i] == #[trigger] fs[i]);
        }
        lemma_serialize_split_lines(fs2);
        let a = spec_serialize_fields(fs2);
        let l = line_of(f);
        assert(forall|i: int| 0 <= i < l.len() ==> #[trigger] l[i] != '\n') by {
            assert(wf_key(fs[fs.len() - 1].0) && wf_value(fs[fs.len() - 1].1));
            assert(forall|i: int|
                0 <= i < f.0.len() ==> #[trigger] l[i] == f.0[i]);
            assert(l[f.0.len() as int] == ':' && l[f.0.len() as int + 1] == ' ');
            assert(forall|i: int|
                f.0.len() + 2 <= i < l.len() ==> #[trigger] l[i] == f.1[i - f.0.len() - 2]);
        }
        lemma_split_lines_no_nl(a, l);
        let sa = split_lines(a);
        assert(sa == lines_of_fields(fs2).push(Seq::<char>::empty()));
        assert(sa.last() == Seq::<char>::empty());
        assert(sa.last() + l =~= l);
        let ext = sa.update(sa.len() - 1, l);
        assert(split_lines(a + l) == ext);
        assert(spec_serialize_fields(fs) == a + field_line_v(f.0, f.1));
        assert(a + field_line_v(f.0, f.1) =~= (a + l).push('\n'));
        assert(split_lines((a + l).push('\n')) == split_lines(a + l).push(Seq::<char>::empty()))
            by {
            assert((a + l).push('\n').drop_last() =~= a + l);
        }
        assert(ext =~= lines_of_fields(fs2).push(l));
        assert(lines_of_fields(fs2).push(l) =~= lines_of_fields(fs));
    }
}

/// Lines that are all non-blank form a single open paragraph run.
proof fn lemma_split_paras_nonblank(ls: Seq<Seq<char>>)
    requires
        forall|i: int| 0 <= i < ls.len() ==> !is_blank(#[trigger] ls[i]),
    ensures
        split_paras(ls) == (Seq::<Seq<Seq<char>>>::empty(), ls),
    decreases ls.len(),
{
    if ls.len() > 0 {
        let ls2 = ls.drop_last();
        assert(forall|i: int| 0 <= i < ls2.len() ==> ls2[i] == #[trigger] ls[i]);
        lemma_split_paras_nonblank(ls2);
        assert(ls2.push(ls.last()) =~= ls);
    }
}

/// Parsing the serialized lines of well-formed fields yields those fields.
proof fn lemma_parse_para_lines(fs: Seq<(Seq<char>, Seq<char>)>)
    requires
        wf_fields(fs),
    ensures
        parse_para(lines_of_fields(fs)) == Some(fs),
    decreases fs.len(),
{
    let ls = lines_of_fields(fs);
    if fs.len() == 0 {
        assert(ls.len() == 0);
    } else {
        let fs2 = fs.drop_last();
        let f = fs.last();
        let k = f.0;
        let v = f.1;
        assert(wf_key(k) && wf_value(v)) by {
            assert(fs[fs.len() - 1] == f);
        }
        assert(wf_fields(fs2)) by {
            assert(forall|i: int| 0 <= i < fs2.len() ==> fs2[i] == #[trigger] fs[i]);
        }
        lemma_parse_para_lines(fs2);
        let l = line_of(f);
        assert(ls.drop_last() =~= lines_of_fields(fs2));
        assert(ls.last() == l);
        lemma_colon_idx(l);
        assert(colon_idx(l) == k.len()) by {
            assert(l[k.len() as int] == ':');
            assert(forall|j: int| 0 <= j < k.len() ==> #[trigger] l[j] == k[j]);
            assert(forall|j: int| 0 <= j < k.len() ==> #[trigger] l[j] != ':');
            if colon_idx(l) < k.len() {
                assert(l[colon_idx(l)] == ':');
            }
        }
        assert(is_field_line(l)) by {
            assert(l[0] == k[0]);
        }
        assert(line_key(l) =~= k);
        assert(line_val(l) == v) by {
            let tail = l.subrange(colon_idx(l) + 1, l.len() as int);
            assert(tail =~= seq![' '] + v);
            assert(tail.len() > 0 && is_ws(tail.first()));
            assert(tail.drop_first() =~= v);
            if v.len() > 0 {
                assert(!is_ws(v.first()));
                assert(strip_ws(v) == v);
            } else {
                assert(strip_ws(v) == v);
            }
        }
        assert(parse_para(ls) == Some(fs2.push((k, v))));
        assert(fs2.push((k, v)) =~= fs);
    }
}

/// Serializing a nonempty, well-formed field list and tokenizing the result
/// gives back exactly one paragraph holding exactly those fields.
pub proof fn lemma_fields_round_trip(fs: Seq<(Seq<char>, Seq<char>)>)
    requires
        fs.len() > 0,
        wf_fields(fs),
    ensures
        spec_parse_control(spec_serialize_fields(fs)) == Some(seq![fs]),
{
    lemma_serialize_split_lines(fs);
    let ls = lines_of_fields(fs);
    assert(forall|i: int| 0 <= i < ls.len() ==> !is_blank(#[trigger] ls[i])) by {
        assert forall|i: int| 0 <= i < ls.len() implies !is_blank(ls[i]) by {
            let f = fs[i];
            assert(ls[i] == line_of(f));
            assert(wf_key(f.0));
            assert(ls[i][0] == f.0[0]);
            assert(!is_ws(ls[i][0]));
        }
    }
    lemma_split_paras_nonblank(ls);
    let full = ls.push(Seq::<char>::empty());
    assert(full.drop_last() =~= ls);
    assert(is_blank(full.last()));
    assert(ls.len() > 0);
    assert(split_paras(full) == (seq![ls], Seq::<Seq<char>>::empty())) by {
        assert(Seq::<Seq<Seq<char>>>::empty().push(ls) =~= seq![ls]);
    }
    assert(para_groups(full) == seq![ls]);
    lemma_parse_para_lines(fs);
    assert(parse_groups(seq![ls]) == Some(seq![fs])) by {
        assert(seq![ls].drop_last() =~= Seq::<Seq<Seq<char>>>::empty());
        assert(seq![ls].last() == ls);
        assert(parse_groups(Seq::<Seq<Seq<char>>>::empty()) == Some(
            Seq::<Seq<(Seq<char>, Seq<char>)>>::empty(),
        ));
        assert(parse_para(ls) == Some(fs));
        assert(Seq::<Seq<(Seq<char>, Seq<char>)>>::empty().push(fs) =~= seq![fs]);
    }
}

/// The serialized text of a whole document: each paragraph's field lines,
/// with one blank separator line between consecutive paragraphs.
pub open spec fn spec_serialize_paras(pss: Seq<Seq<(Seq<char>, Seq<char>)>>) -> Seq<char>
    decreases pss.len(),
{
    if pss.len() == 0 {
        Seq::<char>::empty()
    } else if pss.len() == 1 {
        spec_serialize_fields(pss[0])
    } else {
        spec_serialize_paras(pss.drop_last()) + seq!['\n'] + spec_serialize_fields(pss.last())
    }
}

/// The lines such a document splits into, final empty line not included.
pub open spec fn doc_lines(pss: Seq<Seq<(Seq<char>, Seq<char>)>>) -> Seq<Seq<char>>
    decreases pss.len(),
{
    if pss.len() == 0 {
        Seq::<Seq<char>>::empty()
    } else if pss.len() == 1 {
        lines_of_fields(pss[0])
    } else {
        doc_lines(pss.drop_last()) + seq![Seq::<char>::empty()] + lines_of_fields(pss.last())
    }
}

pub open spec fn paras_lines(pss: Seq<Seq<(Seq<char>, Seq<char>)>>) -> Seq<Seq<Seq<char>>> {
    pss.map_values(|fs: Seq<(Seq<char>, Seq<char>)>| lines_of_fields(fs))
}

/// Every paragraph is nonempty with well-formed keys and values.
pub open spec fn wf_paras(pss: Seq<Seq<(Seq<char>, Seq<char>)>>) -> bool {
    forall|i: int|
        0 <= i < pss.len() ==> (#[trigger] pss[i]).len() > 0 && wf_fields(pss[i])
}

/// Text appended after a final newline starts fresh lines of its own.
proof fn lemma_split_lines_concat_after_nl(x: Seq<char>, y: Seq<char>)
    requires
        split_lines(x).last() == Seq::<char>::empty(),
    ensures
        split_lines(x + y) == split_lines(x).drop_last() + split_lines(y),
    decreases y.len(),
{
    lemma_split_lines_nonempty(x);
    let sx = split_lines(x);
    if y.len() == 0 {
        assert(x + y =~= x);
        assert(split_lines(y) =~= seq![Seq::<char>::empty()]);
        assert(sx.drop_last() + split_lines(y) =~= sx);
    } else {
        let y2 = y.drop_last();
        lemma_split_lines_concat_after_nl(x, y2);
        lemma_split_lines_nonempty(y2);
        let sy2 = split_lines(y2);
        assert(x + y =~= (x + y2).push(y.last()));
        assert((x + y2).push(y.last()).drop_last() =~= x + y2);
        if y.last() == '\n' {
            assert(split_lines(x + y) == split_lines(x + y2).push(Seq::<char>::empty()));
            assert(split_lines(y) == sy2.push(Seq::<char>::empty()));
            assert((sx.drop_last() + sy2).push(Seq::<char>::empty()) =~= sx.drop_last() + sy2.push(
                Seq::<char>::empty(),
            ));
        } else {
            let r = split_lines(x + y2);
            assert(split_lines(x + y) == r.update(r.len() - 1, r.last().push(y.last())));
            assert(r == sx.drop_last() + sy2);
            assert(r.len() == sx.len() - 1 + sy2.len());
            assert(r.last() == sy2.last());
            assert(split_lines(y) == sy2.update(sy2.len() - 1, sy2.last().push(y.last())));
            assert(r.update(r.len() - 1, r.last().push(y.last())) =~= sx.drop_last() + sy2.update(
                sy2.len() - 1,
                sy2.last().push(y.last()),
            ));
        }
    }
}

/// The serialized document splits into the paragraphs' lines, the blank
/// separators, and one final empty line.
proof fn lemma_serialize_paras_lines(pss: Seq<Seq<(Seq<char>, Seq<char>)>>)
    requires
        wf_paras(pss),
    ensures
        split_lines(spec_serialize_paras(pss)) == doc_lines(pss).push(Seq::<char>::empty()),
    decreases pss.len(),
{
    if pss.len() == 0 {
        assert(doc_lines(pss).push(Seq::<char>::empty()) =~= seq![Seq::<char>::empty()]);
    } else if pss.len() == 1 {
        assert(wf_fields(pss[0]));
        lemma_serialize_split_lines(pss[0]);
    } else {
        let pre = pss.drop_last();
        assert(wf_paras(pre)) by {
            assert(forall|i: int| 0 <= i < pre.len() ==> pre[i] == #[trigger] pss[i]);
        }
        lemma_serialize_paras_lines(pre);
        let x = spec_serialize_paras(pre);
        let xn = x + seq!['\n'];
        assert(xn =~= x.push('\n'));
        assert(split_lines(x.push('\n')) == split_lines(x).push(Seq::<char>::empty())) by {
            assert(x.push('\n').drop_last() =~= x);
        }
        let sxn = split_lines(x).push(Seq::<char>::empty());
        assert(sxn.last() == Seq::<char>::empty());
        let fsl = pss.last();
        assert(fsl.len() > 0 && wf_fields(fsl)) by {
            assert(pss[pss.len() - 1] == fsl);
        }
        lemma_serialize_split_lines(fsl);
        let y = spec_serialize_fields(fsl);
        lemma_split_lines_concat_after_nl(xn, y);
        assert(spec_serialize_paras(pss) =~= xn + y);
        assert(split_lines(spec_serialize_paras(pss)) == sxn.drop_last() + split_lines(y));
        assert(sxn.drop_last() =~= split_lines(x));
        assert(split_lines(x) == doc_lines(pre).push(Seq::<char>::empty()));
        assert(split_lines(y) == lines_of_fields(fsl).push(Seq::<char>::empty()));
        assert(doc_lines(pre).push(Seq::<char>::empty()) + lines_of_fields(fsl).push(
            Seq::<char>::empty(),
        ) =~= doc_lines(pss).push(Seq::<char>::empty()));
    }
}

/// Grouping distributes over a document split at a closed boundary.
proof fn lemma_split_paras_concat_closed(a: Seq<Seq<char>>, b: Seq<Seq<char>>)
    requires
        split_paras(a).1.len() == 0,
    ensures
        split_paras(a + b) == (split_paras(a).0 + split_paras(b).0, split_paras(b).1),
    decreases b.len(),
{
    let ca = split_paras(a).0;
    if b.len() == 0 {
        assert(a + b =~= a);
        assert(ca + split_paras(b).0 =~= ca);
        assert(split_paras(b).1 =~= Seq::<Seq<char>>::empty());
        assert(split_paras(a) == (ca + split_paras(b).0, split_paras(b).1));
    } else {
        let b2 = b.drop_last();
        lemma_split_paras_concat_closed(a, b2);
        let l = b.last();
        assert(a + b =~= (a + b2).push(l));
        assert((a + b2).push(l).drop_last() =~= a + b2);
        let cb2 = split_paras(b2).0;
        let curb2 = split_paras(b2).1;
        assert(b2.push(l) =~= b);
        if is_blank(l) {
            if curb2.len() == 0 {
                assert(split_paras(a + b) == (ca + cb2, Seq::<Seq<char>>::empty()));
                assert(split_paras(b) == (cb2, Seq::<Seq<char>>::empty()));
            } else {
                assert(split_paras(a + b) == ((ca + cb2).push(curb2), Seq::<Seq<char>>::empty()));
                assert(split_paras(b) == (cb2.push(curb2), Seq::<Seq<char>>::empty()));
                assert((ca + cb2).push(curb2) =~= ca + cb2.push(curb2));
            }
        } else {
            assert(split_paras(a + b) == (ca + cb2, curb2.push(l)));
            assert(split_paras(b) == (cb2, curb2.push(l)));
        }
    }
}

/// Every line of a well-formed paragraph is non-blank.
proof fn lemma_lines_nonblank(fs: Seq<(Seq<char>, Seq<char>)>)
    requires
        wf_fields(fs),
    ensures
        forall|i: int|
            0 <= i < lines_of_fields(fs).len() ==> !is_blank(#[trigger] lines_of_fields(fs)[i]),
{
    let ls = lines_of_fields(fs);
    assert forall|i: int| 0 <= i < ls.len() implies !is_blank(ls[i]) by {
        let f = fs[i];
        assert(ls[i] == line_of(f));
        assert(wf_key(f.0));
        assert(ls[i][0] == f.0[0]);
        assert(!is_ws(ls[i][0]));
    }
}

/// One well-formed paragraph's lines, closed by a blank line, group into
/// exactly that one paragraph.
proof fn lemma_split_paras_one_group(fs: Seq<(Seq<char>, Seq<char>)>)
    requires
        fs.len() > 0,
        wf_fields(fs),
    ensures
        split_paras(lines_of_fields(fs).push(Seq::<char>::empty())) == (
            seq![lines_of_fields(fs)],
            Seq::<Seq<char>>::empty(),
        ),
{
    let ls = lines_of_fields(fs);
    lemma_lines_nonblank(fs);
    lemma_split_paras_nonblank(ls);
    assert(ls.push(Seq::<char>::empty()).drop_last() =~= ls);
    assert(is_blank(Seq::<char>::empty()));
    assert(ls.len() > 0);
    assert(Seq::<Seq<Seq<char>>>::empty().push(ls) =~= seq![ls]);
}

/// The full document's lines group into one line-group per paragraph.
proof fn lemma_doc_paras(pss: Seq<Seq<(Seq<char>, Seq<char>)>>)
    requires
        wf_paras(pss),
    ensures
        split_paras(doc_lines(pss).push(Seq::<char>::empty())) == (
            paras_lines(pss),
            Seq::<Seq<char>>::empty(),
        ),
    decreases pss.len(),
{
    if pss.len() == 0 {
        assert(doc_lines(pss).push(Seq::<char>::empty()) =~= seq![Seq::<char>::empty()]);
        assert(is_blank(Seq::<char>::empty()));
        assert(seq![Seq::<char>::empty()].drop_last() =~= Seq::<Seq<char>>::empty());
        assert(split_paras(Seq::<Seq<char>>::empty()) == (
            Seq::<Seq<Seq<char>>>::empty(),
            Seq::<Seq<char>>::empty(),
        ));
        assert(split_paras(seq![Seq::<char>::empty()]) == (
            Seq::<Seq<Seq<char>>>::empty(),
            Seq::<Seq<char>>::empty(),
        ));
        assert(paras_lines(pss) =~= Seq::<Seq<Seq<char>>>::empty());
    } else if pss.len() == 1 {
        assert(pss[0].len() > 0 && wf_fields(pss[0]));
        lemma_split_paras_one_group(pss[0]);
        assert(paras_lines(pss) =~= seq![lines_of_fields(pss[0])]);
    } else {
        let pre = pss.drop_last();
        assert(wf_paras(pre)) by {
            assert(forall|i: int| 0 <= i < pre.len() ==> pre[i] == #[trigger] pss[i]);
        }
        lemma_doc_paras(pre);
        let fsl = pss.last();
        assert(fsl.len() > 0 && wf_fields(fsl)) by {
            assert(pss[pss.len() - 1] == fsl);
        }
        lemma_split_paras_one_group(fsl);
        let a = doc_lines(pre).push(Seq::<char>::empty());
        let b = lines_of_fields(fsl).push(Seq::<char>::empty());
        lemma_split_paras_concat_closed(a, b);
        assert(doc_lines(pss).push(Seq::<char>::empty()) =~= a + b);
        assert(paras_lines(pre).push(lines_of_fields(fsl)) =~= paras_lines(pss));
        assert(paras_lines(pre) + seq![lines_of_fields(fsl)] =~= paras_lines(pss));
    }
}

/// Parsing each group of the serialized paragraphs gives the paragraphs.
proof fn lemma_parse_groups_all(pss: Seq<Seq<(Seq<char>, Seq<char>)>>)
    requires
        wf_paras(pss),
    ensures
        parse_groups(paras_lines(pss)) == Some(pss),
    decreases pss.len(),
{
    let gs = paras_lines(pss);
    if pss.len() == 0 {
        assert(gs.len() == 0);
        assert(Some(Seq::<Seq<(Seq<char>, Seq<char>)>>::empty()) == Some(pss)) by {
            assert(pss =~= Seq::<Seq<(Seq<char>, Seq<char>)>>::empty());
        }
    } else {
        let pre = pss.drop_last();
        assert(wf_paras(pre)) by {
            assert(forall|i: int| 0 <= i < pre.len() ==> pre[i] == #[trigger] pss[i]);
        }
        lemma_parse_groups_all(pre);
        let fsl = pss.last();
        assert(wf_fields(fsl)) by {
            assert(pss[pss.len() - 1] == fsl);
        }
        lemma_parse_para_lines(fsl);
        assert(gs.drop_last() =~= paras_lines(pre));
        assert(gs.last() == lines_of_fields(fsl));
        assert(parse_groups(gs) == Some(pre.push(fsl)));
        assert(pre.push(fsl) =~= pss);
    }
}

/// Round trip for whole documents: serializing any sequence of nonempty,
/// well-formed paragraphs and tokenizing the text back gives exactly those
/// paragraphs, in order.
pub proof fn lemma_paras_round_trip(pss: Seq<Seq<(Seq<char>, Seq<char>)>>)
    requires
        wf_paras(pss),
    ensures
        spec_parse_control(spec_serialize_paras(pss)) == Some(pss),
{
    lemma_serialize_paras_lines(pss);
    lemma_doc_paras(pss);
    assert(para_groups(doc_lines(pss).push(Seq::<char>::empty())) == paras_lines(pss));
    lemma_parse_groups_all(pss);
}

/// A line that is neither blank, nor a `Key: value` field start, nor a
/// continuation line rejects the whole document, wherever it stands.
pub proof fn lemma_invalid_line_rejects(s: Seq<char>, i: int)
    requires
        0 <= i < split_lines(s).len(),
        !is_blank(split_lines(s)[i]),
        !is_field_line(split_lines(s)[i]),
        !is_cont_line(split_lines(s)[i]),
    ensures
        spec_parse_control(s) is None,
{
    let lines = split_lines(s);
    let l = lines[i];
    let pre = lines.subrange(0, i);
    let post = lines.subrange(0, i + 1);
    assert(post.drop_last() =~= pre);
    assert(post.last() == l);
    let c = split_paras(pre).0;
    let cur = split_paras(pre).1;
    assert(split_paras(post) == (c, cur.push(l)));
    assert(cur.push(l).drop_last() =~= cur);
    assert(parse_para(cur.push(l)) is None);
    lemma_split_paras_prefix(lines, i + 1);
    let gr = para_groups(lines);
    let g = gr[c.len() as int];
    assert(cur.push(l) == g.subrange(0, cur.push(l).len() as int));
    lemma_parse_para_prefix_none(g, cur.push(l).len() as int);
    lemma_parse_groups_none(gr, c.len() as int);
}

/// Every line of a document made only of whitespace and newlines is blank.
proof fn lemma_blank_chars_blank_lines(s: Seq<char>)
    requires
        forall|i: int| 0 <= i < s.len() ==> is_ws(#[trigger] s[i]) || s[i] == '\n',
    ensures
        forall|i: int|
            0 <= i < split_lines(s).len() ==> is_blank(#[trigger] split_lines(s)[i]),
    decreases s.len(),
{
    if s.len() == 0 {
    } else {
        let s2 = s.drop_last();
        assert(forall|i: int| 0 <= i < s2.len() ==> is_ws(#[trigger] s2[i]) || s2[i] == '\n');
        lemma_blank_chars_blank_lines(s2);
        let rest = split_lines(s2);
        lemma_split_lines_nonempty(s2);
        if s.last() == '\n' {
            assert(is_blank(Seq::<char>::empty()));
        } else {
            assert(is_ws(s.last()));
            let ext = rest.last().push(s.last());
            assert(is_blank(ext)) by {
                assert(is_blank(rest.last()));
                assert(forall|j: int| 0 <= j < ext.len() - 1 ==> ext[j] == #[trigger] rest.last()[j]);
                assert(ext[ext.len() - 1] == s.last());
            }
        }
    }
}

/// Blank lines close no paragraph and open none.
proof fn lemma_split_paras_blank(ls: Seq<Seq<char>>)
    requires
        forall|i: int| 0 <= i < ls.len() ==> is_blank(#[trigger] ls[i]),
    ensures
        split_paras(ls) == (Seq::<Seq<Seq<char>>>::empty(), Seq::<Seq<char>>::empty()),
    decreases ls.len(),
{
    if ls.len() > 0 {
        let ls2 = ls.drop_last();
        assert(forall|i: int| 0 <= i < ls2.len() ==> ls2[i] == #[trigger] ls[i]);
        lemma_split_paras_blank(ls2);
    }
}

/// A document of whitespace and newlines alone holds no paragraph: it
/// parses, to nothing.
pub proof fn lemma_blank_document(s: Seq<char>)
    requires
        forall|i: int| 0 <= i < s.len() ==> is_ws(#[trigger] s[i]) || s[i] == '\n',
    ensures
        spec_parse_control(s) == Some(Seq::<Seq<(Seq<char>, Seq<char>)>>::empty()),
{
    lemma_blank_chars_blank_lines(s);
    lemma_split_paras_blank(split_lines(s));
}

/// Parses a whole control-file document into its paragraphs of ordered
/// fields. `None` exactly when some line is neither blank, nor a `Key: value`
/// field start, nor a continuation attached to a preceding field.
pub fn parse_control(s: &str) -> (r: Option<Vec<Vec<Field>>>)
    ensures
        r is Some <==> spec_parse_control(s@) is Some,
        r is Some ==> paras_view(r.unwrap()@) == spec_parse_control(s@).unwrap(),
{
    let lines = split_into_lines(s);
    let ghost lv = strs_view(lines@);
    let n = lines.len();
    let mut closed: Vec<Vec<Field>> = Vec::new();
    let mut cur: Vec<Field> = Vec::new();
    let ghost mut closedg: Seq<Seq<Seq<char>>> = Seq::empty();
    let ghost mut curg: Seq<Seq<char>> = Seq::empty();
    let mut i: usize = 0;
    proof {
        assert(lv.subrange(0, 0) =~= Seq::<Seq<char>>::empty());
        assert(split_paras(lv.subrange(0, 0)) == (closedg, curg));
        assert(paras_view(closed@) =~= Seq::<Seq<(Seq<char>, Seq<char>)>>::empty());
        assert(fields_view(cur@) =~= Seq::<(Seq<char>, Seq<char>)>::empty());
    }
    while i < n
        invariant
            0 <= i <= n,
            n == lines.len(),
            lv == strs_view(lines@),
            n == lv.len(),
            spec_parse_control(s@) == parse_groups(para_groups(lv)),
            split_paras(lv.subrange(0, i as int)) == (closedg, curg),
            parse_groups(closedg) == Some(paras_view(closed@)),
            parse_para(curg) == Some(fields_view(cur@)),
            curg.len() == 0 <==> cur.len() == 0,
        decreases n - i,
    {
        let ghost pre = lv.subrange(0, i as int);
        let ghost post = lv.subrange(0, i + 1);
        let l: &String = &lines[i];
        let ghost lw = l@;
        proof {
            assert(post.drop_last() =~= pre);
            assert(post.last() == lv[i as int]);
            assert(lv[i as int] == lw);
        }
        if line_is_blank(l.as_str()) {
            if cur.len() > 0 {
                proof {
                    assert(closedg.push(curg).drop_last() =~= closedg);
                }
                let finished = cur;
                cur = Vec::new();
                proof {
                    assert(parse_groups(closedg.push(curg)) == Some(
                        paras_view(closed@).push(fields_view(finished@)),
                    ));
                    assert(paras_view(closed@.push(finished)) =~= paras_view(closed@).push(
                        fields_view(finished@),
                    ));
                    closedg = closedg.push(curg);
                    curg = Seq::<Seq<char>>::empty();
                    assert(fields_view(cur@) =~= Seq::<(Seq<char>, Seq<char>)>::empty());
                }
                closed.push(finished);
            }
        } else {
            proof {
                assert(!is_blank(lw));
                assert(lw.len() > 0) by {
                    if lw.len() == 0 {
                        assert(is_blank(lw));
                    }
                }
                assert(curg.push(lw).drop_last() =~= curg);
                assert(split_paras(post) == (closedg, curg.push(lw)));
            }
            let c0 = l.as_str().get_char(0);
            if c0 == ' ' || c0 == '\t' {
                proof {
                    assert(is_ws(lw[0]));
                    assert(is_cont_line(lw));
                    assert(!is_field_line(lw));
                }
                if cur.len() == 0 {
                    proof {
                        assert(parse_para(curg.push(lw)) is None);
                        lemma_split_paras_prefix(lv, i + 1);
                        let gr = para_groups(lv);
                        let g = gr[closedg.len() as int];
                        assert(curg.push(lw) == g.subrange(0, curg.push(lw).len() as int));
                        lemma_parse_para_prefix_none(g, curg.push(lw).len() as int);
                        lemma_parse_groups_none(gr, closedg.len() as int);
                    }
                    return None;
                }
                let ghost oldcur = cur@;
                let f = cur.pop().unwrap();
                let mut val = f.value;
                val.append("\n");
                val.append(l.as_str());
                cur.push(Field { name: f.name, value: val });
                proof {
                    reveal_strlit("\n");
                    assert("\n"@ =~= seq!['\n']);
                    let fs = fields_view(oldcur);
                    let last = fs.last();
                    assert(parse_para(curg.push(lw)) == Some(
                        fs.update(fs.len() - 1, (last.0, last.1 + seq!['\n'] + lw)),
                    ));
                    assert(fields_view(cur@) =~= fs.update(
                        fs.len() - 1,
                        (last.0, last.1 + seq!['\n'] + lw),
                    ));
                    curg = curg.push(lw);
                }
            } else {
                proof {
                    assert(!is_ws(lw[0]));
                    assert(!is_cont_line(lw));
                }
                let ci = find_colon(l.as_str());
                let len = l.as_str().unicode_len();
                if ci == 0 || ci >= len {
                    proof {
                        assert(!is_field_line(lw));
                        assert(parse_para(curg.push(lw)) is None);
                        lemma_split_paras_prefix(lv, i + 1);
                        let gr = para_groups(lv);
                        let g = gr[closedg.len() as int];
                        assert(curg.push(lw) == g.subrange(0, curg.push(lw).len() as int));
                        lemma_parse_para_prefix_none(g, curg.push(lw).len() as int);
                        lemma_parse_groups_none(gr, closedg.len() as int);
                    }
                    return None;
                }
                proof {
                    assert(is_field_line(lw));
                }
                let name = String::from_str(l.as_str().substring_char(0, ci));
                let value = value_after(l.as_str(), ci + 1);
                let ghost oldcur = cur@;
                cur.push(Field { name, value });
                proof {
                    let fs = fields_view(oldcur);
                    assert(parse_para(curg.push(lw)) == Some(
                        fs.push((line_key(lw), line_val(lw))),
                    ));
                    assert(fields_view(cur@) =~= fs.push((line_key(lw), line_val(lw))));
                    curg = curg.push(lw);
                }
            }
        }
        i += 1;
    }
    proof {
        assert(lv.subrange(0, n as int) =~= lv);
    }
    if cur.len() > 0 {
        proof {
            assert(para_groups(lv) == closedg.push(curg));
            assert(closedg.push(curg).drop_last() =~= closedg);
            assert(parse_groups(closedg.push(curg)) == Some(
                paras_view(closed@).push(fields_view(cur@)),
            ));
            assert(paras_view(closed@.push(cur)) =~= paras_view(closed@).push(fields_view(cur@)));
        }
        closed.push(cur);
    } else {
        proof {
            assert(para_groups(lv) == closedg);
        }
    }
    Some(closed)
}

} // verus!
