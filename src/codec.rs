//! Text fields of the version document: each field is its characters with
//! backslash, tab and newline escaped, followed by a tab.
use vstd::prelude::*;
use crate::chars::chars_of;

verus! {

pub open spec fn escape_char(c: char) -> Seq<char> {
    if c == '\\' {
        seq!['\\', '\\']
    } else if c == '\t' {
        seq!['\\', 't']
    } else if c == '\n' {
        seq!['\\', 'n']
    } else {
        seq![c]
    }
}

pub open spec fn escape(s: Seq<char>) -> Seq<char>
    decreases s.len(),
{
    if s.len() == 0 {
        Seq::empty()
    } else {
        escape(s.drop_last()) + escape_char(s.last())
    }
}

/// A field as written: escaped text, then a tab.
pub open spec fn field(s: Seq<char>) -> Seq<char> {
    escape(s).push('\t')
}

/// Reads the field that starts at `i`, `acc` holding what was read of it so
/// far: its text and the position after its closing tab, or `None` where the
/// text there is no field.
pub open spec fn field_from(t: Seq<char>, i: int, acc: Seq<char>) -> Option<(Seq<char>, int)>
    decreases t.len() - i,
{
    if i < 0 || i >= t.len() {
        None
    } else if t[i] == '\t' {
        Some((acc, i + 1))
    } else if t[i] == '\n' {
        None
    } else if t[i] == '\\' {
        if i + 1 < t.len() && t[i + 1] == '\\' {
            field_from(t, i + 2, acc.push('\\'))
        } else if i + 1 < t.len() && t[i + 1] == 't' {
            field_from(t, i + 2, acc.push('\t'))
        } else if i + 1 < t.len() && t[i + 1] == 'n' {
            field_from(t, i + 2, acc.push('\n'))
        } else {
            None
        }
    } else {
        field_from(t, i + 1, acc.push(t[i]))
    }
}

pub proof fn lemma_escape_concat(a: Seq<char>, b: Seq<char>)
    ensures
        escape(a + b) == escape(a) + escape(b),
    decreases b.len(),
{
    if b.len() == 0 {
        assert(a + b =~= a);
        assert(escape(a) + escape(b) =~= escape(a));
    } else {
        assert((a + b).drop_last() =~= a + b.drop_last());
        lemma_escape_concat(a, b.drop_last());
        assert(escape(a + b) =~= escape(a) + escape(b));
    }
}

/// Where `x` stands in `t` at `i`, so do its two parts.
pub proof fn lemma_split(t: Seq<char>, i: int, a: Seq<char>, b: Seq<char>)
    requires
        0 <= i,
        i + a.len() + b.len() <= t.len(),
        t.subrange(i, i + a.len() + b.len()) == a + b,
    ensures
        t.subrange(i, i + a.len()) == a,
        t.subrange(i + a.len(), i + a.len() + b.len()) == b,
{
    assert forall|k: int| 0 <= k < a.len() implies t.subrange(i, i + a.len())[k] == a[k] by {
        assert(t.subrange(i, i + a.len() + b.len())[k] == (a + b)[k]);
    }
    assert forall|k: int| 0 <= k < b.len() implies t.subrange(
        i + a.len(),
        i + a.len() + b.len(),
    )[k] == b[k] by {
        assert(t.subrange(i, i + a.len() + b.len())[a.len() + k] == (a + b)[a.len() + k]);
        assert((a + b)[a.len() + k] == b[k]);
    }
    assert(t.subrange(i, i + a.len()) =~= a);
    assert(t.subrange(i + a.len(), i + a.len() + b.len()) =~= b);
}

/// A written field is read back as the text it was written from.
pub proof fn lemma_field_read(t: Seq<char>, i: int, s: Seq<char>, acc: Seq<char>)
    requires
        0 <= i,
        i + field(s).len() <= t.len(),
        t.subrange(i, i + field(s).len()) == field(s),
    ensures
        field_from(t, i, acc) == Some((acc + s, i + field(s).len())),
    decreases s.len(),
{
    if s.len() == 0 {
        assert(field(s) =~= seq!['\t']);
        assert(t[i] == t.subrange(i, i + 1)[0]);
        assert(acc + s =~= acc);
    } else {
        let rest = s.drop_first();
        let e0 = escape_char(s[0]);
        assert(s =~= seq![s[0]] + rest);
        lemma_escape_concat(seq![s[0]], rest);
        let one = seq![s[0]];
        assert(one.drop_last() =~= Seq::<char>::empty());
        assert(one.last() == s[0]);
        assert(escape(one) == escape(one.drop_last()) + escape_char(one.last()));
        assert(escape(one) =~= e0);
        assert(field(s) =~= e0 + field(rest));
        lemma_split(t, i, e0, field(rest));
        assert(t[i] == t.subrange(i, i + e0.len())[0]);
        if e0.len() == 2 {
            assert(t[i + 1] == t.subrange(i, i + e0.len())[1]);
        }
        lemma_field_read(t, i + e0.len(), rest, acc.push(s[0]));
        assert(acc.push(s[0]) + rest =~= acc + s);
    }
}

/// Appends `s` written as a field.
pub fn push_field(out: &mut Vec<char>, s: &str)
    ensures
        final(out)@ == old(out)@ + field(s@),
{
    let cs = chars_of(s);
    let mut k: usize = 0;
    while k < cs.len()
        invariant
            k <= cs.len(),
            cs@ == s@,
            out@ == old(out)@ + escape(cs@.subrange(0, k as int)),
        decreases cs.len() - k,
    {
        let c = cs[k];
        proof {
            assert(cs@.subrange(0, k + 1).drop_last() =~= cs@.subrange(0, k as int));
            assert(cs@.subrange(0, k + 1).last() == c);
        }
        if c == '\\' {
            out.push('\\');
            out.push('\\');
        } else if c == '\t' {
            out.push('\\');
            out.push('t');
        } else if c == '\n' {
            out.push('\\');
            out.push('n');
        } else {
            out.push(c);
        }
        assert(out@ =~= old(out)@ + escape(cs@.subrange(0, k + 1)));
        k = k + 1;
    }
    assert(cs@.subrange(0, cs@.len() as int) =~= s@);
    out.push('\t');
    assert(out@ =~= old(out)@ + field(s@));
}

/// Reads the field that starts at `i`: its text and the position after it.
pub fn read_field(t: &Vec<char>, i: usize) -> (r: Option<(Vec<char>, usize)>)
    ensures
        match r {
            Some((v, j)) => field_from(t@, i as int, Seq::empty()) == Some((v@, j as int)),
            None => field_from(t@, i as int, Seq::empty()) is None,
        },
{
    let mut acc: Vec<char> = Vec::new();
    let mut j: usize = i;
    while j < t.len()
        invariant
            field_from(t@, i as int, Seq::empty()) == field_from(t@, j as int, acc@),
            i <= j,
        decreases t.len() - j,
    {
        let c = t[j];
        if c == '\t' {
            return Some((acc, j + 1));
        } else if c == '\n' {
            return None;
        } else if c == '\\' {
            if j + 1 < t.len() && t[j + 1] == '\\' {
                acc.push('\\');
            } else if j + 1 < t.len() && t[j + 1] == 't' {
                acc.push('\t');
            } else if j + 1 < t.len() && t[j + 1] == 'n' {
                acc.push('\n');
            } else {
                return None;
            }
            j = j + 2;
        } else {
            acc.push(c);
            j = j + 1;
        }
    }
    None
}

} // verus!
