//! Paths as they are spelled, and where they lead.

use vstd::prelude::*;

use crate::bytes::{first_at, lemma_first_at, lemma_first_at_is};
use crate::error::Fault;
use crate::extract::PathFact;
use crate::member::Member;
use crate::path::{
    device_stem, is_absolute, is_device, is_reserved, is_rooted, named, piece_end, pieces,
    requires_directory, secure_path, trimmed_end, upper_byte, Platform,
};
use crate::unpack::{job_of, suffix_fault, UnpackOptions};

verus! {

/// Whether a byte stands between the components of a path.
pub open spec fn is_slash(platform: Platform, byte: u8) -> bool {
    byte == 47 || (byte == 92 && platform is Windows)
}

/// Pieces with a byte between each two of them.
pub open spec fn spelled(list: Seq<Seq<u8>>, slashes: Seq<u8>) -> Seq<u8>
    decreases list.len(),
{
    if list.len() == 0 {
        Seq::empty()
    } else if list.len() == 1 {
        list[0]
    } else {
        list[0] + seq![slashes[0]] + spelled(list.drop_first(), slashes.drop_first())
    }
}

/// Whether pieces with these slashes between them spell a path: none of them
/// holds a slash.
pub open spec fn is_spelling(platform: Platform, list: Seq<Seq<u8>>, slashes: Seq<u8>) -> bool {
    &&& list.len() == slashes.len() + 1
    &&& forall|i: int| 0 <= i < slashes.len() ==> is_slash(platform, #[trigger] slashes[i])
    &&& forall|i: int, j: int|
        0 <= i < list.len() && 0 <= j < list[i].len() ==> !is_slash(
            platform,
            #[trigger] list[i][j],
        )
}

/// Whether a path starts where it is joined to: it has no slash in front and, on
/// Windows, no drive.
pub open spec fn is_relative(platform: Platform, path: Seq<u8>) -> bool {
    &&& path.len() > 0 ==> !is_slash(platform, path[0])
    &&& platform is Windows && path.len() > 1 && path[1] == 58 ==> !(65 <= path[0] <= 90 || 97
        <= path[0] <= 122)
}

/// The pieces that are not empty and do not stand for the directory they are in.
pub open spec fn kept(list: Seq<Seq<u8>>) -> Seq<Seq<u8>> {
    list.filter(|piece: Seq<u8>| piece.len() > 0 && piece != seq![46u8])
}

/// A piece ends at the slash behind it.
proof fn lemma_piece_end_at(platform: Platform, path: Seq<u8>, from: int, at: int)
    requires
        0 <= from <= at <= path.len(),
        forall|i: int| from <= i < at ==> !is_slash(platform, #[trigger] path[i]),
        at < path.len() ==> is_slash(platform, path[at]),
    ensures
        piece_end(platform, path, from) == at,
    decreases at - from,
{
    if from < at {
        assert(!is_slash(platform, path[from]));
        lemma_piece_end_at(platform, path, from + 1, at);
    }
}

/// The pieces of a path are found from a place on.
proof fn lemma_pieces_from(
    platform: Platform,
    before: Seq<u8>,
    list: Seq<Seq<u8>>,
    slashes: Seq<u8>,
)
    requires
        is_spelling(platform, list, slashes),
    ensures
        pieces(platform, before + spelled(list, slashes), before.len() as int) == list,
    decreases list.len(),
{
    let path = before + spelled(list, slashes);
    let at = before.len() as int;
    let end = at + list[0].len();
    assert forall|i: int| at <= i < end implies !is_slash(platform, #[trigger] path[i]) by {
        assert(path[i] == list[0][i - at]);
    }
    if list.len() == 1 {
        lemma_piece_end_at(platform, path, at, end);
        assert(path.subrange(at, end) =~= list[0]);
        assert(seq![list[0]] =~= list);
    } else {
        let rest = list.drop_first();
        let others = slashes.drop_first();
        assert(path[end] == slashes[0]);
        lemma_piece_end_at(platform, path, at, end);
        assert(path.subrange(at, end) =~= list[0]);
        assert(is_spelling(platform, rest, others)) by {
            assert forall|i: int| 0 <= i < others.len() implies is_slash(
                platform,
                #[trigger] others[i],
            ) by {
                assert(is_slash(platform, slashes[i + 1]));
            }
            assert forall|i: int, j: int|
                0 <= i < rest.len() && 0 <= j < rest[i].len() implies !is_slash(
                platform,
                #[trigger] rest[i][j],
            ) by {
                assert(!is_slash(platform, list[i + 1][j]));
            }
        }
        let front = before + list[0] + seq![slashes[0]];
        lemma_pieces_from(platform, front, rest, others);
        assert(path =~= front + spelled(rest, others));
        assert(seq![list[0]] + rest =~= list);
    }
}

/// Both ways of leaving pieces out agree.
proof fn lemma_kept(list: Seq<Seq<u8>>)
    ensures
        kept(list) == named(list),
    decreases list.len(),
{
    let keeps = |piece: Seq<u8>| piece.len() > 0 && piece != seq![46u8];
    if list.len() > 0 {
        let rest = list.drop_first();
        lemma_kept(rest);
        assert(list =~= seq![list[0]] + rest);
        Seq::filter_distributes_over_add(seq![list[0]], rest, keeps);
        lemma_filter_one(list[0], keeps);
    } else {
        reveal(Seq::filter);
        assert(kept(list) =~= named(list));
    }
}

/// A single piece is kept or not.
proof fn lemma_filter_one(piece: Seq<u8>, keeps: spec_fn(Seq<u8>) -> bool)
    ensures
        seq![piece].filter(keeps) == if keeps(piece) {
            seq![piece]
        } else {
            Seq::empty()
        },
{
    reveal(Seq::filter);
    let one = seq![piece];
    assert(one.drop_last() =~= Seq::<Seq<u8>>::empty());
    assert(one.drop_last().filter(keeps) =~= Seq::<Seq<u8>>::empty());
    assert(one.filter(keeps) =~= if keeps(piece) {
        one
    } else {
        Seq::empty()
    });
}

/// A path that starts where it is joined to leads where its pieces say: past
/// each of them that names something, without the first ones that are stripped;
/// and it is refused if any of them leads up.
pub proof fn law_relative_paths_lead_where_they_say(
    platform: Platform,
    list: Seq<Seq<u8>>,
    slashes: Seq<u8>,
    strip: int,
)
    requires
        is_spelling(platform, list, slashes),
        is_relative(platform, spelled(list, slashes)),
        strip >= 0,
    ensures
        secure_path(platform, spelled(list, slashes), strip) == if list.contains(
            seq![46u8, 46],
        ) {
            Err::<Option<Seq<Seq<u8>>>, Fault>(Fault::PathTraversal)
        } else if strip >= kept(list).len() {
            Ok(None)
        } else {
            Ok(Some(kept(list).skip(strip)))
        },
{
    let path = spelled(list, slashes);
    let none = Seq::<u8>::empty();
    lemma_pieces_from(platform, none, list, slashes);
    assert(none + path =~= path);
    lemma_kept(list);
    assert(!is_rooted(platform, path));
    assert(!is_absolute(platform, path));
}

/// A path that starts elsewhere is refused: on Unix one with a slash in front is
/// absolute, and on Windows so is one with a drive and a slash.
pub proof fn law_rooted_paths_are_refused(platform: Platform, path: Seq<u8>, strip: int)
    requires
        !is_relative(platform, path),
    ensures
        secure_path(platform, path, strip) is Err,
        platform is Unix ==> secure_path(platform, path, strip) == Err::<
            Option<Seq<Seq<u8>>>,
            Fault,
        >(Fault::AbsolutePath),
        platform is Windows && !is_slash(platform, path[0]) ==> secure_path(platform, path, strip)
            == Err::<Option<Seq<Seq<u8>>>, Fault>(
            if path.len() > 2 && is_slash(platform, path[2]) {
                Fault::AbsolutePath
            } else {
                Fault::PathTraversal
            },
        ),
{
    assert(is_rooted(platform, path));
}

/// The last piece of a path ends it.
proof fn lemma_spelled_end(platform: Platform, list: Seq<Seq<u8>>, slashes: Seq<u8>)
    requires
        is_spelling(platform, list, slashes),
    ensures
        ({
            let path = spelled(list, slashes);
            let last = list.last();
            &&& path.len() >= last.len() + (if list.len() > 1 { 1int } else { 0int })
            &&& path.skip(path.len() - last.len()) == last
            &&& list.len() > 1 ==> is_slash(platform, path[path.len() - last.len() - 1])
            &&& list.len() == 1 ==> path == last
        }),
    decreases list.len(),
{
    let path = spelled(list, slashes);
    if list.len() > 1 {
        let rest = list.drop_first();
        let others = slashes.drop_first();
        let tail = spelled(rest, others);
        let front = list[0] + seq![slashes[0]];
        assert(is_slash(platform, slashes[0]));
        assert(is_spelling(platform, rest, others)) by {
            assert forall|i: int| 0 <= i < others.len() implies is_slash(
                platform,
                #[trigger] others[i],
            ) by {
                assert(is_slash(platform, slashes[i + 1]));
            }
            assert forall|i: int, j: int|
                0 <= i < rest.len() && 0 <= j < rest[i].len() implies !is_slash(
                platform,
                #[trigger] rest[i][j],
            ) by {
                assert(!is_slash(platform, list[i + 1][j]));
            }
        }
        lemma_spelled_end(platform, rest, others);
        assert(path =~= front + tail);
        assert(rest.last() == list.last());
        let n = list.last().len();
        assert(path.skip(path.len() - n) =~= tail.skip(tail.len() - n));
        if rest.len() > 1 {
            assert(path[path.len() - n - 1] == tail[tail.len() - n - 1]);
        } else {
            assert(path[path.len() - n - 1] == front.last());
        }
    } else {
        assert(path.skip(0) =~= path);
    }
}

/// A path can only be that of a directory exactly if its last piece is empty,
/// after a slash, or stands for the directory it is in.
pub proof fn law_paths_that_require_a_directory(
    platform: Platform,
    list: Seq<Seq<u8>>,
    slashes: Seq<u8>,
)
    requires
        is_spelling(platform, list, slashes),
    ensures
        requires_directory(platform, spelled(list, slashes)) <==> (list.last().len() == 0
            && list.len() > 1) || list.last() == seq![46u8],
{
    let path = spelled(list, slashes);
    let last = list.last();
    let n = last.len() as int;
    lemma_spelled_end(platform, list, slashes);
    if n > 0 {
        assert(path.skip(path.len() - n)[n - 1] == path[path.len() - 1]);
        assert(!is_slash(platform, list[list.len() - 1][n - 1]));
        if n == 1 && last[0] == 46 {
            assert(last =~= seq![46u8]);
        }
        if n > 1 {
            assert(path.skip(path.len() - n)[n - 2] == path[path.len() - 2]);
            assert(!is_slash(platform, list[list.len() - 1][n - 2]));
        }
    }
}

/// An entry that is no directory is refused if its path can only be that of
/// one, and so is a hard link to such a path.
pub proof fn law_only_directories_end_in_slashes(member: Member, platform: Platform)
    ensures
        !(member.kind is Directory) && requires_directory(platform, member.header.path) ==>
            suffix_fault(member, platform) == Some(Fault::DirectorySuffix),
        member.kind is Directory ==> suffix_fault(member, platform) is None,
        !(member.kind is Directory) && !requires_directory(platform, member.header.path) ==>
            suffix_fault(member, platform) == if member.kind is Hardlink && (
        member.header.link_name matches Some(target) && requires_directory(platform, target)) {
            Some(Fault::HardlinkNeedsDirectory)
        } else {
            None
        },
{
}

/// A member is extracted to where its path leads, without the components that
/// are stripped, and a hard link is made to where its target leads, without as
/// many; a member whose path is stripped away is not extracted.
pub proof fn law_members_go_where_their_paths_lead(
    member: Member,
    options: UnpackOptions,
    platform: Platform,
    list: Seq<Seq<u8>>,
    slashes: Seq<u8>,
)
    requires
        is_spelling(platform, list, slashes),
        is_relative(platform, spelled(list, slashes)),
        !list.contains(seq![46u8, 46]),
        options.strip_components < kept(list).len() <= usize::MAX,
    ensures
        ({
            let job = job_of(member, options, platform);
            let rest = kept(list).skip(options.strip_components as int);
            &&& member.header.path == spelled(list, slashes) ==> {
                &&& job.components == rest
                &&& job.facts.path == if is_reserved(platform, rest) {
                    PathFact::Reserved
                } else {
                    PathFact::Beneath((rest.len() - 1) as usize)
                }
            }
            &&& member.header.link_name == Some(spelled(list, slashes)) ==> job.source == rest
                && job.facts.source == PathFact::Beneath((rest.len() - 1) as usize)
        }),
{
    law_relative_paths_lead_where_they_say(
        platform,
        list,
        slashes,
        options.strip_components as int,
    );
}

/// Whether a byte is a capital letter or digit, in either case.
pub open spec fn is_either(byte: u8, capital: u8) -> bool {
    byte == capital || (65 <= capital <= 90 && byte == capital + 32)
}

/// Whether a text is one of the names of devices, in any case.
pub open spec fn is_device_name(s: Seq<u8>) -> bool {
    let three = |a: u8, b: u8, c: u8|
        s.len() >= 3 && is_either(s[0], a) && is_either(s[1], b) && is_either(s[2], c);
    ||| s.len() == 3 && (three(67, 79, 78) || three(80, 82, 78) || three(65, 85, 88) || three(
        78,
        85,
        76,
    ))
    ||| s.len() == 4 && 49 <= s[3] <= 57 && (three(67, 79, 77) || three(76, 80, 84))
}

/// Whether what follows the name of a device does not make it another name: it
/// is spaces and dots, or starts with a dot.
pub open spec fn is_ignored(tail: Seq<u8>) -> bool {
    ||| tail.len() > 0 && tail[0] == 46
    ||| forall|i: int| 0 <= i < tail.len() ==> #[trigger] tail[i] == 32 || tail[i] == 46
}

/// Spaces and dots are taken away up to something else.
proof fn lemma_trimmed_end(name: Seq<u8>, end: int, at: int)
    requires
        0 <= at <= end <= name.len(),
        forall|i: int| at <= i < end ==> #[trigger] name[i] == 32 || name[i] == 46,
        at > 0 ==> name[at - 1] != 32 && name[at - 1] != 46,
    ensures
        trimmed_end(name, end) == at,
    decreases end - at,
{
    if at < end {
        lemma_trimmed_end(name, end - 1, at);
    }
}

/// Where the end without spaces and dots is.
proof fn lemma_trimmed(name: Seq<u8>, end: int)
    requires
        0 <= end <= name.len(),
    ensures
        0 <= trimmed_end(name, end) <= end,
        forall|i: int|
            trimmed_end(name, end) <= i < end ==> #[trigger] name[i] == 32 || name[i] == 46,
        forall|i: int|
            0 <= i < end && (#[trigger] name[i]) != 32 && name[i] != 46 ==> i < trimmed_end(
                name,
                end,
            ),
    decreases end,
{
    if end > 0 && (name[end - 1] == 32 || name[end - 1] == 46) {
        lemma_trimmed(name, end - 1);
    }
}

/// A stem is the name of a device exactly if the text it comes from is one.
proof fn lemma_device(s: Seq<u8>, stem: Seq<u8>)
    requires
        stem.len() == s.len(),
        forall|i: int| 0 <= i < s.len() ==> #[trigger] stem[i] == upper_byte(s[i]),
    ensures
        is_device(stem) == is_device_name(s),
{
    if s.len() == 3 {
        lemma_same_three(stem, 67, 79, 78);
        lemma_same_three(stem, 80, 82, 78);
        lemma_same_three(stem, 65, 85, 88);
        lemma_same_three(stem, 78, 85, 76);
    } else if s.len() == 4 {
        lemma_same_three(stem.take(3), 67, 79, 77);
        lemma_same_three(stem.take(3), 76, 80, 84);
    } else {
        assert(stem != seq![67u8, 79, 78]);
        assert(stem != seq![80u8, 82, 78]);
        assert(stem != seq![65u8, 85, 88]);
        assert(stem != seq![78u8, 85, 76]);
    }
    if s.len() == 4 {
        assert(stem != seq![67u8, 79, 78]);
        assert(stem != seq![80u8, 82, 78]);
        assert(stem != seq![65u8, 85, 88]);
        assert(stem != seq![78u8, 85, 76]);
        assert(stem[3] == upper_byte(s[3]));
    }
    if s.len() >= 3 {
        assert(stem[0] == upper_byte(s[0]));
        assert(stem[1] == upper_byte(s[1]));
        assert(stem[2] == upper_byte(s[2]));
    }
}

/// Three bytes are what they are one by one.
proof fn lemma_same_three(s: Seq<u8>, a: u8, b: u8, c: u8)
    requires
        s.len() == 3,
    ensures
        s == seq![a, b, c] <==> s[0] == a && s[1] == b && s[2] == c,
{
    if s[0] == a && s[1] == b && s[2] == c {
        assert(s =~= seq![a, b, c]);
    }
}

/// Windows reserves a path exactly if one of its components is the name of a
/// device, in any case, whatever ending follows and with any spaces and dots at
/// its end; Unix reserves none.
pub proof fn law_names_of_devices_are_reserved(platform: Platform, components: Seq<Seq<u8>>)
    ensures
        is_reserved(platform, components) <==> platform is Windows && exists|
            k: int,
            base: Seq<u8>,
            tail: Seq<u8>,
        |
            0 <= k < components.len() && #[trigger] components[k] == #[trigger] (base + tail)
                && is_device_name(base) && is_ignored(tail),
{
    if platform is Windows {
        if is_reserved(platform, components) {
            let k = choose|k: int|
                0 <= k < components.len() && is_device(device_stem(#[trigger] components[k]));
            let (base, tail) = lemma_reserved_splits(components[k]);
            assert(components[k] == base + tail);
        }
        if exists|k: int, base: Seq<u8>, tail: Seq<u8>|
            0 <= k < components.len() && #[trigger] components[k] == #[trigger] (base + tail)
                && is_device_name(base) && is_ignored(tail) {
            let (k, base, tail) = choose|k: int, base: Seq<u8>, tail: Seq<u8>|
                0 <= k < components.len() && #[trigger] components[k] == #[trigger] (base + tail)
                    && is_device_name(base) && is_ignored(tail);
            lemma_splits_reserved(base, tail);
            assert(is_device(device_stem(components[k])));
        }
    }
}

/// A name that is taken for that of a device begins with it.
proof fn lemma_reserved_splits(name: Seq<u8>) -> (split: (Seq<u8>, Seq<u8>))
    requires
        is_device(device_stem(name)),
    ensures
        name == split.0 + split.1,
        is_device_name(split.0),
        is_ignored(split.1),
{
    let end = trimmed_end(name, name.len() as int);
    lemma_trimmed(name, name.len() as int);
    let whole = name.take(end);
    let at = first_at(whole, 0, 46);
    lemma_first_at(whole, 0, 46);
    let base = name.take(at);
    let tail = name.skip(at);
    assert(name =~= base + tail);
    assert forall|i: int| 0 <= i < base.len() implies #[trigger] device_stem(name)[i]
        == upper_byte(base[i]) by {}
    lemma_device(base, device_stem(name));
    if at < end {
        assert(tail[0] == whole[at]);
    } else {
        assert forall|i: int| 0 <= i < tail.len() implies #[trigger] tail[i] == 32 || tail[i]
            == 46 by {
            assert(tail[i] == name[at + i]);
        }
    }
    (base, tail)
}

/// A name that begins with that of a device is taken for it.
proof fn lemma_splits_reserved(base: Seq<u8>, tail: Seq<u8>)
    requires
        is_device_name(base),
        is_ignored(tail),
    ensures
        is_device(device_stem(base + tail)),
{
    let name = base + tail;
    let n = base.len() as int;
    let end = trimmed_end(name, name.len() as int);
    lemma_trimmed(name, name.len() as int);
    assert(name[n - 1] == base[n - 1]);
    assert(n <= end);
    let whole = name.take(end);
    assert forall|i: int| 0 <= i < n implies whole[i] != 46 by {
        assert(whole[i] == base[i]);
    }
    if end > n {
        if !(tail.len() > 0 && tail[0] == 46) {
            assert forall|i: int| n <= i < name.len() implies #[trigger] name[i] == 32 || name[i]
                == 46 by {
                assert(name[i] == tail[i - n]);
            }
            lemma_trimmed_end(name, name.len() as int, n);
        }
        assert(whole[n] == tail[0]);
    }
    lemma_first_at_is(whole, 0, 46, n);
    let stem = device_stem(name);
    assert forall|i: int| 0 <= i < n implies #[trigger] stem[i] == upper_byte(base[i]) by {
        assert(whole.take(n)[i] == base[i]);
    }
    lemma_device(base, stem);
}

} // verus!
