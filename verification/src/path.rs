//! Paths in an archive, and what of them may be written beneath a destination.

use vstd::prelude::*;
use vstd::slice::slice_subrange;

use crate::bytes::{copy_range, find_from, first_at};
use crate::error::Fault;

verus! {

/// The rules for paths on the system that is extracted to.
#[derive(Clone, Copy, Debug, PartialEq, Eq, Structural)]
pub enum Platform {
    /// A slash separates components, and a path that begins with one is
    /// absolute.
    Unix,
    /// A backslash separates components too, a path may begin with a drive or
    /// a share, and some names are reserved for devices.
    Windows,
}

/// Whether a byte separates the components of a path.
pub open spec fn is_separator(platform: Platform, byte: u8) -> bool {
    byte == 47 || (platform is Windows && byte == 92)
}

/// Whether a path begins with a separator at a place.
pub open spec fn separated_at(platform: Platform, path: Seq<u8>, at: int) -> bool {
    0 <= at < path.len() && is_separator(platform, path[at])
}

/// Whether a byte is an ASCII letter.
pub open spec fn is_letter(byte: u8) -> bool {
    65 <= byte <= 90 || 97 <= byte <= 122
}

/// Whether a path begins with the name of a drive, such as `C:`.
pub open spec fn has_drive(platform: Platform, path: Seq<u8>) -> bool {
    platform is Windows && path.len() >= 2 && is_letter(path[0]) && path[1] == 58
}

/// Whether a path starts elsewhere than where it is joined to.
pub open spec fn is_rooted(platform: Platform, path: Seq<u8>) -> bool {
    separated_at(platform, path, 0) || has_drive(platform, path)
}

/// The place of the first separator at or after `from`, or the end.
pub open spec fn piece_end(platform: Platform, path: Seq<u8>, from: int) -> int
    decreases path.len() - from,
{
    if from >= path.len() || is_separator(platform, path[from]) {
        from
    } else {
        piece_end(platform, path, from + 1)
    }
}

/// Whether a path on Windows names something beyond the drives: after two
/// separators a server and a share of it, or a device behind a dot, or, where
/// all separators so far are backslashes, anything behind a question mark.
pub open spec fn is_beyond_drives(path: Seq<u8>) -> bool {
    let windows = Platform::Windows;
    let server = piece_end(windows, path, 2);
    &&& separated_at(windows, path, 0)
    &&& separated_at(windows, path, 1)
    &&& {
        ||| 2 < server && server + 1 < piece_end(windows, path, server + 1)
        ||| path.len() > 3 && path[2] == 46 && separated_at(windows, path, 3)
        ||| path.len() > 3 && path.take(4) == seq![92u8, 92, 63, 92]
    }
}

/// Whether a path is absolute. On Windows that takes a drive and a separator,
/// or what lies beyond the drives.
pub open spec fn is_absolute(platform: Platform, path: Seq<u8>) -> bool {
    match platform {
        Platform::Unix => separated_at(platform, path, 0),
        Platform::Windows => (has_drive(platform, path) && separated_at(platform, path, 2))
            || is_beyond_drives(path),
    }
}

/// A piece of a path ends at or after its start, and within the path.
pub proof fn lemma_piece_end(platform: Platform, path: Seq<u8>, from: int)
    requires
        0 <= from <= path.len(),
    ensures
        from <= piece_end(platform, path, from) <= path.len(),
        forall|i: int|
            from <= i < piece_end(platform, path, from) ==> !is_separator(
                platform,
                #[trigger] path[i],
            ),
        piece_end(platform, path, from) < path.len() ==> is_separator(
            platform,
            path[piece_end(platform, path, from)],
        ),
    decreases path.len() - from,
{
    if from < path.len() && !is_separator(platform, path[from]) {
        lemma_piece_end(platform, path, from + 1);
    }
}

/// The pieces of a path between its separators, from a place on.
pub open spec fn pieces(platform: Platform, path: Seq<u8>, from: int) -> Seq<Seq<u8>>
    decreases path.len() - from,
{
    if from < 0 || from > path.len() {
        Seq::empty()
    } else {
        proof {
            lemma_piece_end(platform, path, from);
        }
        let end = piece_end(platform, path, from);
        let piece = path.subrange(from, end);
        if end < path.len() {
            seq![piece] + pieces(platform, path, end + 1)
        } else {
            seq![piece]
        }
    }
}

/// The piece that stands for the directory it is in.
pub open spec fn here() -> Seq<u8> {
    seq![46u8]
}

/// The piece that stands for the directory above.
pub open spec fn above() -> Seq<u8> {
    seq![46u8, 46]
}

/// Whether a piece names something, and is not empty or the directory it is in.
pub open spec fn names_something(piece: Seq<u8>) -> bool {
    piece.len() > 0 && piece != here()
}

/// The pieces that name something.
pub open spec fn named(list: Seq<Seq<u8>>) -> Seq<Seq<u8>>
    decreases list.len(),
{
    if list.len() == 0 {
        Seq::empty()
    } else {
        let rest = named(list.drop_first());
        if names_something(list[0]) {
            seq![list[0]] + rest
        } else {
            rest
        }
    }
}

/// The components of a path beneath the destination, after the first `strip`
/// of them are taken away, or none if nothing is left. A path that could lead
/// elsewhere is refused.
pub open spec fn secure_path(platform: Platform, path: Seq<u8>, strip: int) -> Result<
    Option<Seq<Seq<u8>>>,
    Fault,
> {
    let all = pieces(platform, path, 0);
    let clean = named(all);
    if is_absolute(platform, path) {
        Err(Fault::AbsolutePath)
    } else if is_rooted(platform, path) || all.contains(above()) {
        Err(Fault::PathTraversal)
    } else if strip >= clean.len() {
        Ok(None)
    } else {
        Ok(Some(clean.skip(strip)))
    }
}

/// Whether a component names something right beneath the directory it is in.
pub open spec fn is_normal(platform: Platform, component: Seq<u8>) -> bool {
    &&& component.len() > 0
    &&& component != here()
    &&& component != above()
    &&& forall|i: int|
        0 <= i < component.len() ==> !is_separator(platform, #[trigger] component[i])
}

/// The bytes of each component.
pub open spec fn parts(list: Seq<Vec<u8>>) -> Seq<Seq<u8>> {
    Seq::new(list.len(), |i: int| list[i]@)
}

/// The pieces of a path hold no separator.
proof fn lemma_pieces_hold_no_separator(platform: Platform, path: Seq<u8>, from: int)
    requires
        0 <= from <= path.len(),
    ensures
        forall|k: int, i: int|
            0 <= k < pieces(platform, path, from).len() && 0 <= i < pieces(
                platform,
                path,
                from,
            )[k].len() ==> !is_separator(
                platform,
                #[trigger] pieces(platform, path, from)[k][i],
            ),
    decreases path.len() - from,
{
    lemma_piece_end(platform, path, from);
    let end = piece_end(platform, path, from);
    let all = pieces(platform, path, from);
    if end < path.len() {
        lemma_pieces_hold_no_separator(platform, path, end + 1);
        let rest = pieces(platform, path, end + 1);
        assert forall|k: int, i: int| 0 <= k < all.len() && 0 <= i < all[k].len() implies
            !is_separator(platform, #[trigger] all[k][i]) by {
            if k > 0 {
                assert(all[k] == rest[k - 1]);
                assert(!is_separator(platform, rest[k - 1][i]));
            } else {
                assert(all[0][i] == path[from + i]);
            }
        }
    } else {
        assert forall|k: int, i: int| 0 <= k < all.len() && 0 <= i < all[k].len() implies
            !is_separator(platform, #[trigger] all[k][i]) by {
            assert(all[0][i] == path[from + i]);
        }
    }
}

/// The named pieces are among the pieces, and name something.
proof fn lemma_named(list: Seq<Seq<u8>>)
    ensures
        forall|k: int|
            0 <= k < named(list).len() ==> names_something(#[trigger] named(list)[k])
                && list.contains(named(list)[k]),
    decreases list.len(),
{
    if list.len() > 0 {
        let rest = list.drop_first();
        lemma_named(rest);
        assert forall|k: int| 0 <= k < named(list).len() implies names_something(
            #[trigger] named(list)[k],
        ) && list.contains(named(list)[k]) by {
            if names_something(list[0]) && k == 0 {
                assert(list[0] == named(list)[0]);
            } else {
                let j = if names_something(list[0]) {
                    k - 1
                } else {
                    k
                };
                assert(named(list)[k] == named(rest)[j]);
                let at = choose|at: int| 0 <= at < rest.len() && rest[at] == named(rest)[j];
                assert(list[at + 1] == rest[at]);
            }
        }
    }
}

/// A path that is accepted leads to something beneath the destination: it has a
/// component, and each component names something right beneath the one before.
pub proof fn law_accepted_paths_stay_beneath(platform: Platform, path: Seq<u8>, strip: int)
    requires
        strip >= 0,
    ensures
        secure_path(platform, path, strip) matches Ok(Some(components)) ==> {
            &&& components.len() > 0
            &&& forall|k: int|
                0 <= k < components.len() ==> is_normal(platform, #[trigger] components[k])
        },
{
    if let Ok(Some(components)) = secure_path(platform, path, strip) {
        let all = pieces(platform, path, 0);
        let clean = named(all);
        lemma_pieces_hold_no_separator(platform, path, 0);
        lemma_named(all);
        assert forall|k: int| 0 <= k < components.len() implies is_normal(
            platform,
            #[trigger] components[k],
        ) by {
            assert(components[k] == clean[k + strip]);
            let at = choose|at: int| 0 <= at < all.len() && all[at] == clean[k + strip];
            assert(all[at] != above());
            assert forall|i: int| 0 <= i < components[k].len() implies !is_separator(
                platform,
                #[trigger] components[k][i],
            ) by {
                assert(!is_separator(platform, all[at][i]));
            }
        }
    }
}

/// Whether a byte separates the components of a path.
fn separates(platform: Platform, byte: u8) -> (yes: bool)
    ensures
        yes == is_separator(platform, byte),
{
    byte == 47 || (byte == 92 && platform == Platform::Windows)
}

/// The place of the first separator at or after `from`, or the end.
fn find_piece_end(platform: Platform, path: &[u8], from: usize) -> (end: usize)
    requires
        from <= path@.len(),
    ensures
        from <= end <= path@.len(),
        end == piece_end(platform, path@, from as int),
{
    let mut end: usize = from;
    while end < path.len() && !separates(platform, path[end])
        invariant
            from <= end <= path@.len(),
            piece_end(platform, path@, from as int) == piece_end(platform, path@, end as int),
        decreases path@.len() - end,
    {
        end = end + 1;
    }
    end
}

/// Finds out whether a path on Windows names something beyond the drives.
fn beyond_drives(path: &[u8]) -> (beyond: bool)
    ensures
        beyond == is_beyond_drives(path@),
{
    let windows = Platform::Windows;
    let len: usize = path.len();
    if len < 2 || !separates(windows, path[0]) || !separates(windows, path[1]) {
        return false;
    }
    if len > 3 {
        if path[2] == 46 && separates(windows, path[3]) {
            return true;
        }
        assert(path@.take(4) =~= seq![path@[0], path@[1], path@[2], path@[3]]);
        if path[0] == 92 && path[1] == 92 && path[2] == 63 && path[3] == 92 {
            return true;
        }
        assert(path@.take(4) != seq![92u8, 92, 63, 92]) by {
            if path@.take(4) == seq![92u8, 92, 63, 92] {
                assert(path@.take(4)[0] == 92 && path@.take(4)[1] == 92);
                assert(path@.take(4)[2] == 63 && path@.take(4)[3] == 92);
            }
        }
    }
    let server: usize = find_piece_end(windows, path, 2);
    if server == 2 || server == len {
        return false;
    }
    let share: usize = find_piece_end(windows, path, server + 1);
    share > server + 1
}

/// The components of a path beneath the destination, after the first `strip`
/// of them are taken away, or `None` if nothing is left.
pub fn secure_relative_path(path: &[u8], strip: usize, platform: Platform) -> (found: Result<
    Option<Vec<Vec<u8>>>,
    Fault,
>)
    ensures
        match found {
            Ok(Some(list)) => secure_path(platform, path@, strip as int) == Ok::<
                Option<Seq<Seq<u8>>>,
                Fault,
            >(Some(parts(list@))),
            Ok(None) => secure_path(platform, path@, strip as int) == Ok::<
                Option<Seq<Seq<u8>>>,
                Fault,
            >(None),
            Err(fault) => secure_path(platform, path@, strip as int) == Err::<
                Option<Seq<Seq<u8>>>,
                Fault,
            >(fault),
        },
{
    let ghost all = pieces(platform, path@, 0);
    let first: bool = path.len() > 0 && separates(platform, path[0]);
    let third: bool = path.len() > 2 && separates(platform, path[2]);
    let drive: bool = platform == Platform::Windows && path.len() >= 2 && ((65 <= path[0] && path[0]
        <= 90) || (97 <= path[0] && path[0] <= 122)) && path[1] == 58;
    let absolute: bool = match platform {
        Platform::Unix => first,
        Platform::Windows => (drive && third) || beyond_drives(path),
    };
    if absolute {
        return Err(Fault::AbsolutePath);
    }
    if first || drive {
        return Err(Fault::PathTraversal);
    }
    let mut clean: Vec<Vec<u8>> = Vec::new();
    let mut from: usize = 0;
    let mut more: bool = true;
    let ghost mut seen: Seq<Seq<u8>> = Seq::empty();
    proof {
        assert(seen + all =~= all);
        assert(parts(clean@) =~= named(seen));
    }
    while more
        invariant
            all == pieces(platform, path@, 0),
            !is_absolute(platform, path@),
            more ==> from <= path@.len(),
            more ==> all == seen + pieces(platform, path@, from as int),
            !more ==> all == seen,
            !seen.contains(above()),
            parts(clean@) == named(seen),
        decreases path@.len() - from + (if more { 1int } else { 0int }),
    {
        let end: usize = find_piece_end(platform, path, from);
        let piece: Vec<u8> = copy_range(path, from, end);
        let ghost rest = if end < path@.len() {
            pieces(platform, path@, end + 1)
        } else {
            Seq::empty()
        };
        let ghost before = seen;
        proof {
            assert(all =~= before.push(piece@) + rest);
        }
        if piece.len() == 2 && piece[0] == 46 && piece[1] == 46 {
            proof {
                assert(piece@ =~= above());
                assert((before.push(piece@) + rest)[before.len() as int] == above());
            }
            return Err(Fault::PathTraversal);
        }
        proof {
            seen = before.push(piece@);
            lemma_named_push(before, piece@);
            assert(piece@ == above() ==> piece@.len() == 2 && piece@[0] == 46 && piece@[1] == 46);
            assert forall|i: int| 0 <= i < seen.len() implies seen[i] != above() by {
                if i < before.len() {
                    assert(seen[i] == before[i]);
                    assert(before.contains(before[i]));
                }
            }
            assert(piece@ == here() ==> piece@.len() == 1 && piece@[0] == 46);
            assert(piece@.len() == 1 && piece@[0] == 46 ==> piece@ =~= here());
        }
        if piece.len() > 0 && !(piece.len() == 1 && piece[0] == 46) {
            let ghost list = parts(clean@);
            clean.push(piece);
            assert(parts(clean@) =~= list.push(piece@));
        }
        if end < path.len() {
            from = end + 1;
        } else {
            more = false;
            assert(all =~= seen);
        }
    }
    if strip >= clean.len() {
        return Ok(None);
    }
    let mut kept: Vec<Vec<u8>> = Vec::new();
    let mut i: usize = strip;
    while i < clean.len()
        invariant
            strip <= i <= clean@.len(),
            parts(kept@) =~= parts(clean@).subrange(strip as int, i as int),
        decreases clean@.len() - i,
    {
        let ghost before = parts(kept@);
        let part: Vec<u8> = copy_range(clean[i].as_slice(), 0, clean[i].len());
        assert(part@ =~= clean@[i as int]@);
        kept.push(part);
        assert(parts(kept@) =~= before.push(part@));
        i = i + 1;
    }
    assert(parts(kept@) =~= parts(clean@).skip(strip as int));
    Ok(Some(kept))
}

/// One more piece is named or not, whatever comes before it.
proof fn lemma_named_push(list: Seq<Seq<u8>>, piece: Seq<u8>)
    ensures
        named(list.push(piece)) == if names_something(piece) {
            named(list).push(piece)
        } else {
            named(list)
        },
    decreases list.len(),
{
    let all = list.push(piece);
    if list.len() == 0 {
        assert(all.drop_first() =~= Seq::empty());
        assert(named(all.drop_first()) =~= Seq::empty());
        assert(named(all) =~= if names_something(piece) {
            named(list).push(piece)
        } else {
            named(list)
        });
    } else {
        let rest = list.drop_first();
        lemma_named_push(rest, piece);
        assert(all.drop_first() =~= rest.push(piece));
        assert(all[0] == list[0]);
        assert(named(all) =~= if names_something(piece) {
            named(list).push(piece)
        } else {
            named(list)
        });
    }
}

/// A byte with an ASCII letter made upper case.
pub open spec fn upper_byte(byte: u8) -> u8 {
    if 97 <= byte <= 122 {
        (byte - 32) as u8
    } else {
        byte
    }
}

/// The end of a name without the spaces and dots at its end.
pub open spec fn trimmed_end(name: Seq<u8>, end: int) -> int
    decreases end,
{
    if end > 0 && (name[end - 1] == 32 || name[end - 1] == 46) {
        trimmed_end(name, end - 1)
    } else {
        end
    }
}

/// What of a name Windows compares with the names of devices: all before the
/// first dot, without spaces and dots at the end of the name, in upper case.
pub open spec fn device_stem(name: Seq<u8>) -> Seq<u8> {
    let whole = name.take(trimmed_end(name, name.len() as int));
    let stem = whole.take(first_at(whole, 0, 46));
    Seq::new(stem.len(), |i: int| upper_byte(stem[i]))
}

/// Whether a stem is the name of a device: `CON`, `PRN`, `AUX`, `NUL`, or `COM`
/// or `LPT` with a digit from one to nine.
pub open spec fn is_device(stem: Seq<u8>) -> bool {
    ||| stem == seq![67u8, 79, 78]
    ||| stem == seq![80u8, 82, 78]
    ||| stem == seq![65u8, 85, 88]
    ||| stem == seq![78u8, 85, 76]
    ||| stem.len() == 4 && 49 <= stem[3] <= 57 && (stem.take(3) == seq![67u8, 79, 77] || stem.take(
        3,
    ) == seq![76u8, 80, 84])
}

/// Whether a path is reserved on a platform. Only Windows reserves names.
pub open spec fn is_reserved(platform: Platform, components: Seq<Seq<u8>>) -> bool {
    platform is Windows && exists|k: int|
        0 <= k < components.len() && is_device(device_stem(#[trigger] components[k]))
}

/// The end of a name without the spaces and dots at its end.
fn trim_end(name: &[u8]) -> (end: usize)
    ensures
        end <= name@.len(),
        end == trimmed_end(name@, name@.len() as int),
{
    let mut end: usize = name.len();
    while end > 0 && (name[end - 1] == 32 || name[end - 1] == 46)
        invariant
            end <= name@.len(),
            trimmed_end(name@, end as int) == trimmed_end(name@, name@.len() as int),
        decreases end,
    {
        end = end - 1;
    }
    end
}

/// A byte with an ASCII letter made upper case.
fn to_upper(byte: u8) -> (upper: u8)
    ensures
        upper == upper_byte(byte),
{
    if 97 <= byte && byte <= 122 {
        byte - 32
    } else {
        byte
    }
}

/// Whether Windows takes a component for the name of a device.
fn names_device(name: &[u8]) -> (yes: bool)
    ensures
        yes == is_device(device_stem(name@)),
{
    let end: usize = trim_end(name);
    let whole = slice_subrange(name, 0, end);
    assert(whole@ =~= name@.take(end as int));
    let stop: usize = find_from(whole, 0, 46);
    let mut stem: Vec<u8> = Vec::new();
    let mut i: usize = 0;
    while i < stop
        invariant
            i <= stop <= whole@.len(),
            stem@ =~= Seq::new(i as nat, |k: int| upper_byte(whole@[k])),
        decreases stop - i,
    {
        stem.push(to_upper(whole[i]));
        i = i + 1;
    }
    assert(stem@ =~= device_stem(name@));
    if stem.len() == 3 {
        proof {
            lemma_three(stem@);
        }
        (stem[0] == 67 && stem[1] == 79 && stem[2] == 78) || (stem[0] == 80 && stem[1] == 82
            && stem[2] == 78) || (stem[0] == 65 && stem[1] == 85 && stem[2] == 88) || (stem[0] == 78
            && stem[1] == 85 && stem[2] == 76)
    } else if stem.len() == 4 {
        proof {
            lemma_three(stem@.take(3));
        }
        49 <= stem[3] && stem[3] <= 57 && ((stem[0] == 67 && stem[1] == 79 && stem[2] == 77) || (
        stem[0] == 76 && stem[1] == 80 && stem[2] == 84))
    } else {
        false
    }
}

/// Three bytes are what they are one by one.
proof fn lemma_three(s: Seq<u8>)
    requires
        s.len() == 3,
    ensures
        forall|a: u8, b: u8, c: u8| #[trigger]
            seq![a, b, c] == s <==> s[0] == a && s[1] == b && s[2] == c,
{
    assert forall|a: u8, b: u8, c: u8| #[trigger] seq![a, b, c] == s <==> s[0] == a && s[1] == b
        && s[2] == c by {
        if s[0] == a && s[1] == b && s[2] == c {
            assert(seq![a, b, c] =~= s);
        }
    }
}

/// Whether a path is reserved on a platform.
pub fn is_reserved_path(components: &[Vec<u8>], platform: Platform) -> (yes: bool)
    ensures
        yes == is_reserved(platform, parts(components@)),
{
    if platform == Platform::Unix {
        return false;
    }
    let ghost all = parts(components@);
    let mut i: usize = 0;
    while i < components.len()
        invariant
            platform is Windows,
            i <= components@.len(),
            all == parts(components@),
            forall|k: int| 0 <= k < i ==> !is_device(device_stem(#[trigger] all[k])),
        decreases components@.len() - i,
    {
        assert(all[i as int] == components@[i as int]@);
        if names_device(components[i].as_slice()) {
            return true;
        }
        i = i + 1;
    }
    false
}

/// Whether a path can only be that of a directory: it ends in a separator, or
/// its last piece stands for the directory it is in.
pub open spec fn requires_directory(platform: Platform, path: Seq<u8>) -> bool {
    let n = path.len();
    &&& n > 0
    &&& is_separator(platform, path[n - 1]) || (path[n - 1] == 46 && (n == 1 || is_separator(
        platform,
        path[n - 2],
    )))
}

/// Whether a path can only be that of a directory.
pub fn path_requires_directory(path: &[u8], platform: Platform) -> (yes: bool)
    ensures
        yes == requires_directory(platform, path@),
{
    let n: usize = path.len();
    n > 0 && (separates(platform, path[n - 1]) || (path[n - 1] == 46 && (n == 1 || separates(
        platform,
        path[n - 2],
    ))))
}

} // verus!
