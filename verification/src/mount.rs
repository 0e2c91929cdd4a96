//! Mount state, hfsutils-style: `mfsmount` records the current image
//! (and working "folder" prefix) in a small state file so the other
//! tools know what to operate on. This module holds the state and its
//! text form; reading and writing the file is the program's part.

use vstd::prelude::*;
use crate::error::MfsError;
use crate::text::{chars_of, push_chars, string_of};

verus! {

/// The mounted image and the current pseudo-folder.
pub struct MountState {
    /// Path of the image file.
    pub image: String,
    /// Current pseudo-folder prefix ("" = volume root). MFS is flat,
    /// but names may contain ':' as a folder illusion.
    pub prefix: String,
}

/// Index of the first newline in `t`, or its length.
pub open spec fn line_end(t: Seq<char>) -> int
    decreases t.len(),
{
    if t.len() == 0 {
        0
    } else if t[0] == '\n' {
        0
    } else {
        1 + line_end(t.drop_first())
    }
}

/// The first line of non-empty `t`, as `str::lines` gives it: up to the
/// first newline, without a carriage return right before that newline.
pub open spec fn first_line(t: Seq<char>) -> Seq<char> {
    let e = line_end(t);
    if e < t.len() && e > 0 && t[e - 1] == '\r' {
        t.take(e - 1)
    } else {
        t.take(e)
    }
}

/// What follows the first line and its newline.
pub open spec fn after_first_line(t: Seq<char>) -> Seq<char> {
    let e = line_end(t);
    if e < t.len() {
        t.skip(e + 1)
    } else {
        Seq::empty()
    }
}

/// The state file text: image path and prefix, each on its own line.
pub open spec fn state_text(image: Seq<char>, prefix: Seq<char>) -> Seq<char> {
    image + seq!['\n'] + prefix + seq!['\n']
}

/// Image path and prefix read from state file text: the first line is the
/// image path and must not be empty; the second line, if any, is the
/// prefix, else the prefix is empty.
pub open spec fn spec_parse_state(t: Seq<char>) -> Option<(Seq<char>, Seq<char>)> {
    if t.len() == 0 || first_line(t).len() == 0 {
        None
    } else {
        let rest = after_first_line(t);
        Some(
            (
                first_line(t),
                if rest.len() == 0 {
                    Seq::empty()
                } else {
                    first_line(rest)
                },
            ),
        )
    }
}

proof fn lemma_line_end(t: Seq<char>)
    ensures
        0 <= line_end(t) <= t.len(),
        forall|k: int| 0 <= k < line_end(t) ==> t[k] != '\n',
        line_end(t) < t.len() ==> t[line_end(t)] == '\n',
    decreases t.len(),
{
    if t.len() > 0 && t[0] != '\n' {
        lemma_line_end(t.drop_first());
        assert forall|k: int| 0 <= k < line_end(t) implies t[k] != '\n' by {
            if k > 0 {
                assert(t[k] == t.drop_first()[k - 1]);
            }
        }
    }
}

proof fn lemma_line_end_at(a: Seq<char>, b: Seq<char>)
    requires
        !a.contains('\n'),
    ensures
        line_end(a + seq!['\n'] + b) == a.len(),
    decreases a.len(),
{
    let t = a + seq!['\n'] + b;
    if a.len() > 0 {
        assert(a[0] != '\n') by {
            if a[0] == '\n' {
                assert(a.contains('\n'));
            }
        }
        assert(t.drop_first() =~= a.drop_first() + seq!['\n'] + b);
        assert(!a.drop_first().contains('\n')) by {
            if a.drop_first().contains('\n') {
                let k = choose|k: int| 0 <= k < a.drop_first().len() && a.drop_first()[k] == '\n';
                assert(a[k + 1] == '\n');
            }
        }
        lemma_line_end_at(a.drop_first(), b);
    }
}

/// Writing a state and reading it back gives the same state, for an image
/// path that is not empty, and path and prefix without newlines and not
/// ending in a carriage return.
pub proof fn lemma_state_roundtrip(image: Seq<char>, prefix: Seq<char>)
    requires
        image.len() > 0,
        !image.contains('\n'),
        !prefix.contains('\n'),
        image.last() != '\r',
        prefix.len() > 0 ==> prefix.last() != '\r',
    ensures
        spec_parse_state(state_text(image, prefix)) == Some((image, prefix)),
{
    let t = state_text(image, prefix);
    assert(t =~= image + seq!['\n'] + (prefix + seq!['\n']));
    lemma_line_end_at(image, prefix + seq!['\n']);
    assert(first_line(t) =~= image);
    let rest = after_first_line(t);
    assert(rest =~= prefix + seq!['\n']);
    assert(rest =~= prefix + seq!['\n'] + Seq::<char>::empty());
    lemma_line_end_at(prefix, Seq::<char>::empty());
    assert(first_line(rest) =~= prefix);
}

/// First line of `cs[from..]` (non-empty), and where the text after it
/// starts.
fn take_line(cs: &Vec<char>, from: usize) -> (r: (Vec<char>, usize))
    requires
        from < cs.len(),
    ensures
        r.0@ == first_line(cs@.skip(from as int)),
        from < r.1 <= cs.len(),
        cs@.skip(r.1 as int) == after_first_line(cs@.skip(from as int)),
{
    let ghost t = cs@.skip(from as int);
    proof {
        lemma_line_end(t);
    }
    let mut e = from;
    while e < cs.len() && cs[e] != '\n'
        invariant
            from <= e <= cs.len(),
            t == cs@.skip(from as int),
            e - from <= line_end(t),
            forall|k: int| 0 <= k < line_end(t) ==> t[k] != '\n',
            line_end(t) < t.len() ==> t[line_end(t)] == '\n',
        decreases cs.len() - e,
    {
        assert(t[e - from] == cs@[e as int]);
        e += 1;
    }
    assert(e - from == line_end(t)) by {
        if e < cs.len() {
            assert(t[e - from] == cs@[e as int]);
        }
    }
    let mut stop = e;
    if e < cs.len() && e > from && cs[e - 1] == '\r' {
        stop = e - 1;
    }
    let mut line: Vec<char> = Vec::new();
    let mut k = from;
    while k < stop
        invariant
            from <= k <= stop <= cs.len(),
            line@ =~= cs@.subrange(from as int, k as int),
        decreases stop - k,
    {
        line.push(cs[k]);
        k += 1;
    }
    assert(line@ =~= first_line(t));
    let next = if e < cs.len() {
        e + 1
    } else {
        e
    };
    assert(cs@.skip(next as int) =~= after_first_line(t));
    (line, next)
}

/// Reads the state from the text of the state file.
pub fn parse_state(text: &str) -> (r: Result<MountState, MfsError>)
    ensures
        match spec_parse_state(text@) {
            None => r == Err::<MountState, MfsError>(MfsError::StateCorrupt),
            Some((image, prefix)) => r matches Ok(st) && st.image@ == image && st.prefix@ == prefix,
        },
{
    let cs = chars_of(text);
    if cs.len() == 0 {
        return Err(MfsError::StateCorrupt);
    }
    proof {
        assert(cs@.skip(0) =~= cs@);
    }
    let (img, next) = take_line(&cs, 0);
    if img.len() == 0 {
        return Err(MfsError::StateCorrupt);
    }
    let prefix = if next < cs.len() {
        let (p, _) = take_line(&cs, next);
        p
    } else {
        assert(cs@.skip(next as int) =~= Seq::<char>::empty());
        Vec::new()
    };
    Ok(MountState { image: string_of(img.as_slice()), prefix: string_of(prefix.as_slice()) })
}

impl MountState {
    /// The text of the state file for this state.
    pub fn to_text(&self) -> (t: String)
        ensures
            t@ == state_text(self.image@, self.prefix@),
    {
        let mut t = String::new();
        let ic = chars_of(self.image.as_str());
        let pc = chars_of(self.prefix.as_str());
        push_chars(&mut t, ic.as_slice());
        t.push('\n');
        push_chars(&mut t, pc.as_slice());
        t.push('\n');
        t
    }
}

} // verus!
