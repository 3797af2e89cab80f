//! Safe relative paths: the stored name of an archive entry is split at
//! slashes and backslashes, every piece is sanitized as a file name, and what
//! is left of the pieces makes up the path.

use vstd::prelude::*;

verus! {

/// A relative path whose components are sanitized file names: every value
/// of this type is a path of clean components, none of them empty.
#[derive(Debug)]
pub struct SafePath {
    parts: Vec<String>,
}

/// Whether `c` separates the components of a stored name.
pub open spec fn is_separator(c: char) -> bool {
    c == '/' || c == '\\'
}

/// The characters that no sanitized name holds.
pub open spec fn is_reserved_char(c: char) -> bool {
    c == '/' || c == '\\' || c == '?' || c == '<' || c == '>' || c == ':' || c == '*' || c == '|'
        || c == '"'
}

/// The pieces between the separators of `s`, empty ones included; a string
/// with `n` separators has `n + 1` pieces.
pub open spec fn pieces(s: Seq<char>) -> Seq<Seq<char>>
    decreases s.len(),
{
    if s.len() == 0 {
        seq![Seq::empty()]
    } else {
        let before = pieces(s.drop_last());
        if is_separator(s.last()) {
            before.push(Seq::empty())
        } else {
            before.drop_last().push(before.last().push(s.last()))
        }
    }
}

/// What `sanitize_filename::sanitize` makes of `name` on the platform that
/// the library is built for.
pub uninterp spec fn sanitized_name(name: Seq<char>) -> Seq<char>;

/// A name that can be one component of a path and nothing else: it holds no
/// separator or other reserved character and is neither `.` nor `..`.
pub open spec fn is_clean(name: Seq<char>) -> bool {
    &&& forall|i: int| 0 <= i < name.len() ==> !is_reserved_char(#[trigger] name[i])
    &&& name != seq!['.']
    &&& name != seq!['.', '.']
}

/// A path of clean components, none of them empty.
pub open spec fn path_wf(path: Seq<Seq<char>>) -> bool {
    forall|k: int| 0 <= k < path.len() ==> (#[trigger] path[k]).len() > 0 && is_clean(path[k])
}

/// The sanitized pieces, without those of which nothing is left.
pub open spec fn safe_parts(raw: Seq<Seq<char>>) -> Seq<Seq<char>>
    decreases raw.len(),
{
    if raw.len() == 0 {
        Seq::empty()
    } else {
        let before = safe_parts(raw.drop_last());
        let clean = sanitized_name(raw.last());
        if clean.len() == 0 {
            before
        } else {
            before.push(clean)
        }
    }
}

/// The safe path that stands for the stored name `name`.
pub open spec fn safe_path(name: Seq<char>) -> Seq<Seq<char>> {
    safe_parts(pieces(name))
}

/// `path` below the directory `base`, written with `/`.
pub open spec fn joined(base: Seq<char>, path: Seq<Seq<char>>) -> Seq<char>
    decreases path.len(),
{
    if path.len() == 0 {
        base
    } else {
        joined(base, path.drop_last()) + seq!['/'] + path.last()
    }
}

/// The views of a sequence of strings.
pub open spec fn part_views(parts: Seq<String>) -> Seq<Seq<char>> {
    parts.map_values(|s: String| s@)
}

impl View for SafePath {
    type V = Seq<Seq<char>>;

    closed spec fn view(&self) -> Seq<Seq<char>> {
        part_views(self.parts@)
    }
}

/// Calls `sanitize_filename::sanitize` with its default options. That
/// function deletes every reserved character (`/ \ ? < > : * | "`) and every
/// control character, then makes a name of dots alone empty, and cuts the
/// result to 255 bytes only where it is longer; on Windows it also deletes
/// reserved device names and trailing dots and spaces. It never adds a
/// character. So the result holds no reserved character, and it is
/// neither `.` nor `..`: a name that short was not cut.
#[verifier::external_body]
fn sanitize(name: &str) -> (clean: String)
    ensures
        clean@ == sanitized_name(name@),
        is_clean(clean@),
{
    sanitize_filename::sanitize(name)
}

/// Sanitizes `piece` and appends it to `parts` unless nothing is left of it.
fn push_sanitized(parts: &mut Vec<String>, piece: &str)
    requires
        path_wf(part_views(old(parts)@)),
    ensures
        path_wf(part_views(final(parts)@)),
        part_views(final(parts)@) == if sanitized_name(piece@).len() == 0 {
            part_views(old(parts)@)
        } else {
            part_views(old(parts)@).push(sanitized_name(piece@))
        },
{
    let clean = sanitize(piece);
    if !clean.as_str().is_empty() {
        parts.push(clean);
        assert(part_views(parts@) =~= part_views(old(parts)@).push(sanitized_name(piece@)));
    }
}

/// The safe relative path for the stored name `path`: the name is split at
/// `/` and `\`, each piece is sanitized, and the pieces of which nothing is
/// left are dropped.
pub fn sanitize_file_path(path: &str) -> (safe: SafePath)
    ensures
        safe@ == safe_path(path@),
        path_wf(safe@),
{
    let n = path.unicode_len();
    let mut parts: Vec<String> = Vec::new();
    let mut start: usize = 0;
    let mut i: usize = 0;
    let ghost mut done: Seq<Seq<char>> = Seq::empty();
    assert(path@.take(0).len() == 0);
    assert(path@.subrange(0, 0) =~= Seq::<char>::empty());
    assert(pieces(path@.take(0)) =~= done.push(path@.subrange(0, 0)));
    assert(part_views(parts@) =~= safe_parts(done));
    while i < n
        invariant
            n == path@.len(),
            start <= i <= n,
            pieces(path@.take(i as int)) == done.push(path@.subrange(start as int, i as int)),
            part_views(parts@) == safe_parts(done),
            path_wf(part_views(parts@)),
        decreases n - i,
    {
        let c = path.get_char(i);
        proof {
            assert(path@.take(i + 1).drop_last() =~= path@.take(i as int));
            assert(path@.take(i + 1).last() == c);
            assert(done.push(path@.subrange(start as int, i as int)).drop_last() =~= done);
        }
        if c == '/' || c == '\\' {
            let piece = path.substring_char(start, i);
            push_sanitized(&mut parts, piece);
            proof {
                let longer = done.push(piece@);
                assert(longer.drop_last() =~= done);
                done = longer;
                assert(path@.subrange(i + 1, i + 1) =~= Seq::<char>::empty());
            }
            start = i + 1;
        } else {
            assert(path@.subrange(start as int, i + 1) =~= path@.subrange(
                start as int,
                i as int,
            ).push(c));
        }
        i += 1;
    }
    let piece = path.substring_char(start, n);
    push_sanitized(&mut parts, piece);
    proof {
        assert(path@.take(n as int) =~= path@);
        assert(done.push(piece@).drop_last() =~= done);
    }
    SafePath { parts }
}

impl SafePath {
    /// What holds of every safe path.
    #[verifier::type_invariant]
    pub open spec fn wf(self) -> bool {
        path_wf(self@)
    }

    /// The empty path, which stands for the directory that paths are
    /// relative to.
    pub fn root() -> (root: SafePath)
        ensures
            root@ == Seq::<Seq<char>>::empty(),
    {
        let parts: Vec<String> = Vec::new();
        assert(part_views(parts@) =~= Seq::<Seq<char>>::empty());
        SafePath { parts }
    }

    /// The components, from the outermost directory inwards.
    pub fn components(&self) -> (parts: &Vec<String>)
        ensures
            part_views(parts@) == self@,
            path_wf(self@),
    {
        proof {
            use_type_invariant(self);
        }
        &self.parts
    }

    /// The number of components.
    pub fn len(&self) -> (n: usize)
        ensures
            n == self@.len(),
    {
        self.parts.len()
    }

    /// The path of the first `n` components.
    pub fn prefix(&self, n: usize) -> (head: SafePath)
        requires
            n <= self@.len(),
        ensures
            head@ == self@.take(n as int),
    {
        let mut parts: Vec<String> = Vec::new();
        let mut i: usize = 0;
        proof {
            use_type_invariant(self);
        }
        assert(part_views(parts@) =~= self@.take(0));
        while i < n
            invariant
                i <= n <= self.parts@.len(),
                part_views(parts@) == self@.take(i as int),
            decreases n - i,
        {
            let ghost before = part_views(parts@);
            parts.push(self.parts[i].clone());
            assert(part_views(parts@) =~= before.push(self@[i as int]));
            assert(before.push(self@[i as int]) =~= self@.take(i + 1));
            i += 1;
        }
        SafePath { parts }
    }

    /// A copy of this path.
    pub fn duplicate(&self) -> (copy: SafePath)
        ensures
            copy@ == self@,
    {
        assert(self@.take(self@.len() as int) =~= self@);
        self.prefix(self.parts.len())
    }

    /// Whether `other` is this path or a directory above it.
    pub fn starts_with(&self, other: &SafePath) -> (b: bool)
        ensures
            b == other@.is_prefix_of(self@),
    {
        if other.parts.len() > self.parts.len() {
            return false;
        }
        let mut i: usize = 0;
        while i < other.parts.len()
            invariant
                i <= other.parts@.len() <= self.parts@.len(),
                forall|k: int| 0 <= k < i ==> self@[k] == other@[k],
            decreases other.parts@.len() - i,
        {
            if self.parts[i] != other.parts[i] {
                assert(self@[i as int] != other@[i as int]);
                return false;
            }
            i += 1;
        }
        assert(other@ =~= self@.subrange(0, other@.len() as int));
        true
    }

    /// Whether the two paths have the same components.
    pub fn same(&self, other: &SafePath) -> (b: bool)
        ensures
            b == (self@ == other@),
    {
        let b = self.parts.len() == other.parts.len() && self.starts_with(other);
        proof {
            if b {
                assert(self@ =~= other@);
            }
            if self@ == other@ {
                assert(self@.subrange(0, self@.len() as int) =~= self@);
            }
        }
        b
    }

    /// The path below `out_dir`, written with `/` between the components.
    pub fn join(&self, out_dir: &str) -> (full: String)
        ensures
            full@ == joined(out_dir@, self@),
            path_wf(self@),
    {
        proof {
            use_type_invariant(self);
        }
        let mut full = String::from_str(out_dir);
        let mut i: usize = 0;
        proof {
            reveal_strlit("/");
            assert(self@.take(0).len() == 0);
        }
        while i < self.parts.len()
            invariant
                i <= self.parts@.len(),
                full@ == joined(out_dir@, self@.take(i as int)),
                "/"@ == seq!['/'],
            decreases self.parts@.len() - i,
        {
            proof {
                assert(self@.take(i + 1).drop_last() =~= self@.take(i as int));
                assert(self@.take(i + 1).last() == self.parts@[i as int]@);
            }
            full.append("/");
            full.append(self.parts[i].as_str());
            i += 1;
        }
        assert(self@.take(i as int) =~= self@);
        full
    }
}

/// A safe path joined to a directory stays below it: the directory is a
/// prefix of the result, and what follows it is, for each component, a `/`
/// and a clean, non-empty name, so that no step leads up or elsewhere.
pub proof fn lemma_joined_inside(base: Seq<char>, path: Seq<Seq<char>>)
    requires
        path_wf(path),
    ensures
        base.is_prefix_of(joined(base, path)),
        joined(base, path).len() >= base.len() + 2 * path.len(),
        forall|k: int|
            0 <= k < path.len() ==> joined(base, path.take(k + 1)) == joined(base, path.take(k))
                + seq!['/'] + #[trigger] path[k],
    decreases path.len(),
{
    if path.len() > 0 {
        let shorter = path.drop_last();
        lemma_joined_inside(base, shorter);
        assert(base.is_prefix_of(joined(base, path))) by {
            assert(joined(base, path).subrange(0, base.len() as int) =~= joined(
                base,
                shorter,
            ).subrange(0, base.len() as int));
        }
        assert forall|k: int| 0 <= k < path.len() implies joined(base, path.take(k + 1)) == joined(
            base,
            path.take(k),
        ) + seq!['/'] + #[trigger] path[k] by {
            assert(path.take(k + 1).drop_last() =~= path.take(k));
        }
    } else {
        assert(base.subrange(0, base.len() as int) =~= base);
    }
}

/// A name is split at every separator: there is at least one piece, and no
/// piece holds a separator.
pub proof fn lemma_pieces_hold_no_separator(s: Seq<char>)
    ensures
        pieces(s).len() >= 1,
        forall|k: int, i: int|
            0 <= k < pieces(s).len() && 0 <= i < pieces(s)[k].len() ==> !is_separator(
                #[trigger] pieces(s)[k][i],
            ),
    decreases s.len(),
{
    if s.len() > 0 {
        lemma_pieces_hold_no_separator(s.drop_last());
        let before = pieces(s.drop_last());
        let all = pieces(s);
        assert forall|k: int, i: int| 0 <= k < all.len() && 0 <= i < all[k].len() implies !is_separator(
            #[trigger] all[k][i],
        ) by {
            if k < all.len() - 1 {
                assert(all[k] == before[k]);
            } else if !is_separator(s.last()) {
                if i < before.last().len() {
                    assert(all[k][i] == before.last()[i]);
                }
            }
        }
    }
}

/// Characters that are no separators, put behind a name, lengthen its last
/// piece.
proof fn lemma_pieces_grow(s: Seq<char>, more: Seq<char>)
    requires
        forall|i: int| 0 <= i < more.len() ==> !is_separator(#[trigger] more[i]),
    ensures
        pieces(s).len() >= 1,
        pieces(s + more) == pieces(s).drop_last().push(pieces(s).last() + more),
    decreases more.len(),
{
    lemma_pieces_hold_no_separator(s);
    let old_pieces = pieces(s);
    if more.len() == 0 {
        assert(s + more =~= s);
        assert(old_pieces.last() + more =~= old_pieces.last());
        assert(old_pieces.drop_last().push(old_pieces.last()) =~= old_pieces);
    } else {
        let shorter = more.drop_last();
        lemma_pieces_grow(s, shorter);
        assert((s + more).drop_last() =~= s + shorter);
        assert((s + more).last() == more.last());
        let before = pieces(s + shorter);
        assert(before.drop_last() =~= old_pieces.drop_last());
        assert((old_pieces.last() + shorter).push(more.last()) =~= old_pieces.last() + more);
    }
}

/// A safe path joined to a directory resolves below it: split at the
/// separators, the result is the directory's own pieces followed by the
/// path's components, each of them a clean name, so that no step leads up
/// or elsewhere.
pub proof fn lemma_joined_pieces(base: Seq<char>, path: Seq<Seq<char>>)
    requires
        path_wf(path),
    ensures
        pieces(joined(base, path)) == pieces(base) + path,
    decreases path.len(),
{
    if path.len() == 0 {
        assert(pieces(base) + path =~= pieces(base));
    } else {
        let shorter = path.drop_last();
        let last = path.last();
        lemma_joined_pieces(base, shorter);
        let above = joined(base, shorter);
        let slashed = above + seq!['/'];
        assert(slashed.drop_last() =~= above);
        assert(slashed.last() == '/');
        assert(pieces(slashed) == pieces(above).push(Seq::<char>::empty()));
        assert(is_clean(last));
        assert forall|i: int| 0 <= i < last.len() implies !is_separator(#[trigger] last[i]) by {
            assert(!is_reserved_char(last[i]));
        }
        lemma_pieces_grow(slashed, last);
        assert(pieces(slashed).drop_last() =~= pieces(above));
        assert(Seq::<char>::empty() + last =~= last);
        assert(pieces(above).push(last) =~= pieces(base) + path);
    }
}

} // verus!
