//! Path algebra on text.
//!
//! A path is a string whose components are separated by `/`. Repeated
//! separators and trailing separators carry no meaning, a leading separator
//! makes the path absolute and counts as a component of its own, and a `.`
//! piece is dropped unless it opens a relative path. Ancestry is decided
//! on components, never on raw text, so `/foo` is no ancestor of `/foobar`.

use vstd::prelude::*;
use vstd::string::*;
use crate::text::{chars_of, option_text, same_text, text_of, texts};

verus! {

/// The component that stands for the root of an absolute path.
pub open spec fn root_component() -> Seq<char> {
    seq!['/']
}

/// Adds the piece `cur` to the components read so far, unless it is empty
/// or a `.` that does not open the path.
pub open spec fn close_piece(done: Seq<Seq<char>>, cur: Seq<char>) -> Seq<Seq<char>> {
    if cur.len() == 0 {
        done
    } else if cur == seq!['.'] && done.len() > 0 {
        done
    } else {
        done.push(cur)
    }
}

/// Reads `s` from left to right; gives the components completed so far and
/// the piece still open.
pub open spec fn scan(s: Seq<char>) -> (Seq<Seq<char>>, Seq<char>)
    decreases s.len(),
{
    if s.len() == 0 {
        (Seq::empty(), Seq::empty())
    } else {
        let before = scan(s.drop_last());
        let c = s.last();
        if c == '/' {
            if s.len() == 1 {
                (seq![root_component()], Seq::empty())
            } else {
                (close_piece(before.0, before.1), Seq::empty())
            }
        } else {
            (before.0, before.1.push(c))
        }
    }
}

/// The components of the path `s`.
pub open spec fn path_components(s: Seq<char>) -> Seq<Seq<char>> {
    close_piece(scan(s).0, scan(s).1)
}

/// `p` is `k` itself or an ancestor of `k`, measured in components.
pub open spec fn path_starts_with(k: Seq<char>, p: Seq<char>) -> bool {
    path_components(p).is_prefix_of(path_components(k))
}

/// A component that names a node: neither the root, nor `.`, nor `..`.
pub open spec fn is_normal_component(c: Seq<char>) -> bool {
    c != root_component() && c != seq!['.'] && c != seq!['.', '.']
}

/// The final component of `s`, if it names a node.
pub open spec fn path_file_name(s: Seq<char>) -> Option<Seq<char>> {
    let comps = path_components(s);
    if comps.len() > 0 && is_normal_component(comps.last()) {
        Some(comps.last())
    } else {
        None
    }
}

/// The components of the parent of `s`: all but the last, unless `s` is
/// empty or ends in the root.
pub open spec fn path_parent(s: Seq<char>) -> Option<Seq<Seq<char>>> {
    let comps = path_components(s);
    if comps.len() > 0 && comps.last() != root_component() {
        Some(comps.drop_last())
    } else {
        None
    }
}

/// The name under which `k` is a direct child of `p`, if it is one.
pub open spec fn child_name_in(k: Seq<char>, p: Seq<char>) -> Option<Seq<char>> {
    if path_parent(k) == Some(path_components(p)) {
        path_file_name(k)
    } else {
        None
    }
}

/// `s` begins at the root.
pub open spec fn path_is_absolute(s: Seq<char>) -> bool {
    s.len() > 0 && s[0] == '/'
}

/// `name` placed under `base`: an absolute `name` stands alone, otherwise
/// one separator is put between the two unless `base` is empty or already
/// ends in one.
pub open spec fn path_join(base: Seq<char>, name: Seq<char>) -> Seq<char> {
    if path_is_absolute(name) {
        name
    } else if base.len() > 0 && base.last() != '/' {
        base.push('/') + name
    } else {
        base + name
    }
}

proof fn lemma_scan_step(s: Seq<char>, i: int)
    requires
        0 <= i < s.len(),
    ensures
        scan(s.take(i + 1)) == (if s[i] == '/' {
            if i == 0 {
                (seq![root_component()], Seq::<char>::empty())
            } else {
                (close_piece(scan(s.take(i)).0, scan(s.take(i)).1), Seq::<char>::empty())
            }
        } else {
            (scan(s.take(i)).0, scan(s.take(i)).1.push(s[i]))
        }),
{
    assert(s.take(i + 1).drop_last() =~= s.take(i));
    assert(s.take(i + 1).last() == s[i]);
}

/// Splits a path into its components.
pub fn components(s: &str) -> (out: Vec<String>)
    ensures
        texts(out@) == path_components(s@),
{
    let chars = chars_of(s);
    let mut done: Vec<String> = Vec::new();
    let mut cur: Vec<char> = Vec::new();
    let mut i: usize = 0;
    assert(chars@.take(0) =~= Seq::<char>::empty());
    assert(texts(done@) =~= Seq::<Seq<char>>::empty());
    while i < chars.len()
        invariant
            i <= chars.len(),
            texts(done@) == scan(chars@.take(i as int)).0,
            cur@ == scan(chars@.take(i as int)).1,
        decreases chars.len() - i,
    {
        proof {
            lemma_scan_step(chars@, i as int);
        }
        let c = chars[i];
        if c == '/' {
            if i == 0 {
                proof {
                    reveal_strlit("/");
                    assert("/"@ =~= root_component());
                }
                done.push(String::from_str("/"));
                assert(texts(done@) =~= seq![root_component()]);
            } else {
                close_into(&mut done, &cur);
            }
            cur = Vec::new();
        } else {
            cur.push(c);
        }
        i += 1;
    }
    assert(chars@.take(i as int) =~= chars@);
    close_into(&mut done, &cur);
    done
}

/// Whether the components `pc` open the components `kc`.
pub fn components_start_with(kc: &Vec<String>, pc: &Vec<String>) -> (b: bool)
    ensures
        b == texts(pc@).is_prefix_of(texts(kc@)),
{
    if pc.len() > kc.len() {
        return false;
    }
    let mut i: usize = 0;
    while i < pc.len()
        invariant
            i <= pc.len(),
            pc.len() <= kc.len(),
            forall|j: int| 0 <= j < i ==> pc@[j]@ == kc@[j]@,
        decreases pc.len() - i,
    {
        if !(pc[i] == kc[i]) {
            assert(texts(pc@)[i as int] != texts(kc@).subrange(0, pc@.len() as int)[i as int]);
            return false;
        }
        i += 1;
    }
    assert(texts(pc@) =~= texts(kc@).subrange(0, pc@.len() as int));
    true
}

/// Whether `prefix` is `path` itself or an ancestor of it, measured in
/// components.
pub fn starts_with(path: &str, prefix: &str) -> (b: bool)
    ensures
        b == path_starts_with(path@, prefix@),
{
    let kc = components(path);
    let pc = components(prefix);
    components_start_with(&kc, &pc)
}

/// Places `name` under `base`.
pub fn join(base: &str, name: &str) -> (r: String)
    ensures
        r@ == path_join(base@, name@),
{
    let n = chars_of(name);
    if n.len() > 0 && n[0] == '/' {
        return String::from_str(name);
    }
    let b = chars_of(base);
    let mut r = String::from_str(base);
    if b.len() > 0 && b[b.len() - 1] != '/' {
        r.push('/');
    }
    r.append(name);
    r
}

/// Whether `s` begins at the root.
pub fn is_absolute(s: &str) -> (b: bool)
    ensures
        b == path_is_absolute(s@),
{
    let c = chars_of(s);
    c.len() > 0 && c[0] == '/'
}

fn is_normal(c: &str) -> (b: bool)
    ensures
        b == is_normal_component(c@),
{
    proof {
        reveal_strlit("/");
        reveal_strlit(".");
        reveal_strlit("..");
        assert("/"@ =~= seq!['/']);
        assert("."@ =~= seq!['.']);
        assert(".."@ =~= seq!['.', '.']);
    }
    !same_text(c, "/") && !same_text(c, ".") && !same_text(c, "..")
}

/// The final component of `s`, if it names a node.
pub fn file_name(s: &str) -> (r: Option<String>)
    ensures
        option_text(r) == path_file_name(s@),
{
    let mut comps = components(s);
    let ghost all = texts(comps@);
    match comps.pop() {
        Some(last) => {
            assert(last@ == all[all.len() - 1]);
            if is_normal(last.as_str()) {
                Some(last)
            } else {
                None
            }
        },
        None => None,
    }
}

/// The final component of `s` if it names a node, else the empty text.
pub open spec fn file_name_or_empty(s: Seq<char>) -> Seq<char> {
    match path_file_name(s) {
        Some(n) => n,
        None => Seq::empty(),
    }
}

/// The name that an entry at `s` carries.
pub fn entry_name(s: &str) -> (r: String)
    ensures
        r@ == file_name_or_empty(s@),
{
    match file_name(s) {
        Some(n) => n,
        None => String::new(),
    }
}

/// The name under which `k` is a direct child of `p`, if it is one.
pub fn child_name(k: &str, p: &str) -> (r: Option<String>)
    ensures
        option_text(r) == child_name_in(k@, p@),
{
    let mut kc = components(k);
    let pc = components(p);
    let ghost all = texts(kc@);
    proof {
        reveal_strlit("/");
        assert("/"@ =~= seq!['/']);
    }
    match kc.pop() {
        Some(last) => {
            assert(last@ == all[all.len() - 1]);
            assert(texts(kc@) =~= all.drop_last());
            if same_text(last.as_str(), "/") {
                return None;
            }
            if !same_components(&kc, &pc) {
                return None;
            }
            if is_normal(last.as_str()) {
                Some(last)
            } else {
                None
            }
        },
        None => None,
    }
}

fn same_components(a: &Vec<String>, b: &Vec<String>) -> (r: bool)
    ensures
        r == (texts(a@) == texts(b@)),
{
    if a.len() != b.len() {
        return false;
    }
    let r = components_start_with(a, b);
    proof {
        assert(texts(a@).subrange(0, texts(b@).len() as int) =~= texts(a@));
    }
    r
}

fn close_into(done: &mut Vec<String>, cur: &Vec<char>)
    ensures
        texts(final(done)@) == close_piece(texts(old(done)@), cur@),
{
    if cur.len() == 0 {
    } else if cur.len() == 1 && cur[0] == '.' && done.len() > 0 {
        assert(cur@ =~= seq!['.']);
    } else {
        assert(cur@ == seq!['.'] ==> cur@.len() == 1 && cur@[0] == '.');
        let piece = text_of(cur);
        let ghost before = done@;
        done.push(piece);
        assert(texts(done@) =~= texts(before).push(cur@));
    }
}

} // verus!
