//! Sizes of the directories of a device, and which to delete.
use vstd::prelude::*;
use vstd::string::StringSliceAdditionalSpecFns;
use crate::text::{
    has_word, is_number, lines, read_number, rows, split_lines, value_of, word_at, Malformed,
};

verus! {

/// The space on the device.
pub const FILESYSTEM_SIZE: usize = 70_000_000;

/// The space that the update needs.
pub const UPDATE_SIZE: usize = 30_000_000;

/// The largest size that counts as small.
pub const SMALL: usize = 100_000;

/// The size of every directory, with what lies below it.
pub struct Puzzle {
    pub directories_size: Vec<usize>,
}

/// The sum of the small sizes among the first `upto`.
pub open spec fn small_sum(sizes: Seq<usize>, upto: int) -> int
    decreases upto,
{
    if upto <= 0 {
        0
    } else if sizes[upto - 1] <= SMALL {
        small_sum(sizes, upto - 1) + sizes[upto - 1]
    } else {
        small_sum(sizes, upto - 1)
    }
}

/// The largest of the first `upto` sizes, 0 where there is none.
pub open spec fn largest(sizes: Seq<usize>, upto: int) -> int
    decreases upto,
{
    if upto <= 0 {
        0
    } else if sizes[upto - 1] > largest(sizes, upto - 1) {
        sizes[upto - 1] as int
    } else {
        largest(sizes, upto - 1)
    }
}

/// The space that must be freed, given the space in use.
pub open spec fn required_space(used: int) -> int {
    UPDATE_SIZE - (FILESYSTEM_SIZE - used)
}

/// The smallest of the first `upto` sizes that is more than `required` and
/// less than the whole device; the size of the device where there is none.
pub open spec fn smallest_above(sizes: Seq<usize>, required: int, upto: int) -> int
    decreases upto,
{
    if upto <= 0 {
        FILESYSTEM_SIZE as int
    } else if sizes[upto - 1] > required && sizes[upto - 1] < smallest_above(
        sizes,
        required,
        upto - 1,
    ) {
        sizes[upto - 1] as int
    } else {
        smallest_above(sizes, required, upto - 1)
    }
}

/// The largest size is one of the sizes and none exceeds it.
pub proof fn lemma_largest(sizes: Seq<usize>, upto: int)
    requires
        0 <= upto <= sizes.len(),
    ensures
        forall|i: int| 0 <= i < upto ==> sizes[i] <= largest(sizes, upto),
        upto > 0 ==> exists|i: int| 0 <= i < upto && sizes[i] == largest(sizes, upto),
        0 <= largest(sizes, upto) <= usize::MAX,
    decreases upto,
{
    if upto > 0 {
        lemma_largest(sizes, upto - 1);
        if upto > 1 {
            let i = choose|i: int| 0 <= i < upto - 1 && sizes[i] == largest(sizes, upto - 1);
            assert(sizes[i] == largest(sizes, upto - 1));
        }
        assert(sizes[upto - 1] <= largest(sizes, upto));
    }
}

/// The smallest size above a bound is no less than any other such size.
pub proof fn lemma_smallest_above(sizes: Seq<usize>, required: int, upto: int)
    requires
        0 <= upto <= sizes.len(),
    ensures
        0 <= smallest_above(sizes, required, upto) <= FILESYSTEM_SIZE,
        forall|i: int|
            0 <= i < upto && sizes[i] > required ==> smallest_above(sizes, required, upto)
                <= sizes[i],
    decreases upto,
{
    if upto > 0 {
        lemma_smallest_above(sizes, required, upto - 1);
    }
}

/// The slash that parts the names of a path.
pub const SLASH: u8 = 47;

/// The blank.
pub const BLANK: u8 = 32;

/// What is known of the device while its listing is read: every directory
/// met so far, by its path, with the size of the files that lie in it, and
/// the names that lead from the root to the current directory, once the
/// listing has gone to the root.
pub struct Device {
    pub paths: Seq<Seq<u8>>,
    pub own: Seq<int>,
    pub at: Option<Seq<Seq<u8>>>,
}

/// The path of a directory: a slash, and each name with a slash behind it.
pub open spec fn path_of(names: Seq<Seq<u8>>) -> Seq<u8>
    decreases names.len(),
{
    if names.len() == 0 {
        seq![SLASH]
    } else {
        path_of(names.drop_last()) + names.last() + seq![SLASH]
    }
}

/// The place of the first of the first `upto` paths that equals `path`, or
/// `upto` where none does.
pub open spec fn find_path(paths: Seq<Seq<u8>>, path: Seq<u8>, upto: int) -> int
    decreases upto,
{
    if upto <= 0 {
        0
    } else if find_path(paths, path, upto - 1) < upto - 1 {
        find_path(paths, path, upto - 1)
    } else if paths[upto - 1] == path {
        upto - 1
    } else {
        upto
    }
}

/// The words `$ cd` and a blank.
pub open spec fn word_cd() -> Seq<u8> {
    seq![36u8, 32u8, 99u8, 100u8, 32u8]
}

/// The line `$ ls`.
pub open spec fn word_ls() -> Seq<u8> {
    seq![36u8, 32u8, 108u8, 115u8]
}

/// The word `dir` and a blank.
pub open spec fn word_dir() -> Seq<u8> {
    seq![100u8, 105u8, 114u8, 32u8]
}

/// The line `$ cd /`.
pub open spec fn word_root() -> Seq<u8> {
    seq![36u8, 32u8, 99u8, 100u8, 32u8, 47u8]
}

/// The line `$ cd ..`.
pub open spec fn word_up() -> Seq<u8> {
    seq![36u8, 32u8, 99u8, 100u8, 32u8, 46u8, 46u8]
}

/// The place of the first blank at or behind `from`, or the length of the
/// line.
pub open spec fn blank_at(line: Seq<u8>, from: int) -> int
    decreases line.len() - from,
{
    if from < 0 || from >= line.len() {
        line.len() as int
    } else if line[from] == BLANK {
        from
    } else {
        blank_at(line, from + 1)
    }
}

/// What one more line of the listing makes of the device.  `$ cd /` goes
/// to the root, `$ cd ..` one directory up, `$ cd` with a name into that
/// directory, `$ ls` changes nothing, `dir` with a name makes a directory
/// known, and a size with a name adds a file to the current directory,
/// which must be known.
pub open spec fn listed(device: Device, line: Seq<u8>) -> Option<Device> {
    if line == word_root() {
        Some(Device { paths: device.paths, own: device.own, at: Some(seq![]) })
    } else if line == word_up() {
        match device.at {
            Some(names) => if names.len() > 0 {
                Some(Device { paths: device.paths, own: device.own, at: Some(names.drop_last()) })
            } else {
                None
            },
            None => None,
        }
    } else if word_at(line, 0, word_cd()) {
        match device.at {
            Some(names) => if line.len() > 5 {
                Some(
                    Device {
                        paths: device.paths,
                        own: device.own,
                        at: Some(names.push(line.subrange(5, line.len() as int))),
                    },
                )
            } else {
                None
            },
            None => None,
        }
    } else if line == word_ls() {
        Some(device)
    } else if word_at(line, 0, word_dir()) {
        match device.at {
            Some(names) => {
                let path = path_of(names) + line.subrange(4, line.len() as int) + seq![SLASH];
                if find_path(device.paths, path, device.paths.len() as int) < device.paths.len() {
                    Some(device)
                } else {
                    Some(
                        Device {
                            paths: device.paths.push(path),
                            own: device.own.push(0),
                            at: device.at,
                        },
                    )
                }
            },
            None => None,
        }
    } else {
        let blank = blank_at(line, 0);
        let digits = line.subrange(0, blank);
        match device.at {
            Some(names) => {
                let place = find_path(device.paths, path_of(names), device.paths.len() as int);
                if blank < line.len() && is_number(digits) && place < device.paths.len()
                    && device.own[place] + value_of(digits) <= usize::MAX {
                    Some(
                        Device {
                            paths: device.paths,
                            own: device.own.update(place, device.own[place] + value_of(digits)),
                            at: device.at,
                        },
                    )
                } else {
                    None
                }
            },
            None => None,
        }
    }
}

/// The device after the first `upto` lines of the listing.  At first only
/// the root is known.
pub open spec fn device_after(lines: Seq<Seq<u8>>, upto: int) -> Option<Device>
    decreases upto,
{
    if upto <= 0 {
        Some(Device { paths: seq![seq![SLASH]], own: seq![0int], at: None })
    } else {
        match device_after(lines, upto - 1) {
            Some(device) => listed(device, lines[upto - 1]),
            None => None,
        }
    }
}

/// Whether `prefix` stands at the start of `path`.
pub open spec fn starts_with(path: Seq<u8>, prefix: Seq<u8>) -> bool {
    prefix.len() <= path.len() && path.subrange(0, prefix.len() as int) == prefix
}

/// The size of the directory at `place` with what lies below it, counted
/// over the first `upto` directories: the sizes of those whose path starts
/// with its path.
pub open spec fn total(paths: Seq<Seq<u8>>, own: Seq<int>, place: int, upto: int) -> int
    decreases upto,
{
    if upto <= 0 {
        0
    } else if starts_with(paths[upto - 1], paths[place]) {
        total(paths, own, place, upto - 1) + own[upto - 1]
    } else {
        total(paths, own, place, upto - 1)
    }
}

/// The size of every directory with what lies below it, in the order in
/// which the listing makes them known, where all fit the machine's numbers.
pub open spec fn totals(device: Device) -> Option<Seq<usize>> {
    let n = device.paths.len() as int;
    if forall|i: int|
        0 <= i < n ==> #[trigger] total(device.paths, device.own, i, n) <= usize::MAX {
        Some(Seq::new(n as nat, |i: int| total(device.paths, device.own, i, n) as usize))
    } else {
        None
    }
}

/// The sizes that a listing stands for.
pub open spec fn sizes_of(lines: Seq<Seq<u8>>) -> Option<Seq<usize>> {
    match device_after(lines, lines.len() as int) {
        Some(device) => totals(device),
        None => None,
    }
}

/// A path is found at a place among the paths looked through, or behind
/// them.
pub proof fn lemma_find_path(paths: Seq<Seq<u8>>, path: Seq<u8>, upto: int)
    requires
        0 <= upto,
    ensures
        0 <= find_path(paths, path, upto) <= upto,
    decreases upto,
{
    if upto > 0 {
        lemma_find_path(paths, path, upto - 1);
    }
}

/// Where the listing has failed, it fails for all lines.
pub proof fn lemma_listing_stops(lines: Seq<Seq<u8>>, bad: int, upto: int)
    requires
        0 <= bad <= upto,
        device_after(lines, bad) is None,
    ensures
        device_after(lines, upto) is None,
    decreases upto,
{
    if bad < upto {
        lemma_listing_stops(lines, bad, upto - 1);
    }
}

/// The sizes of directories are not negative, and a total grows with
/// every directory counted.
pub proof fn lemma_total_grows(paths: Seq<Seq<u8>>, own: Seq<int>, place: int, upto: int, more: int)
    requires
        forall|i: int| 0 <= i < own.len() ==> own[i] >= 0,
        0 <= upto <= more <= own.len(),
    ensures
        0 <= total(paths, own, place, upto) <= total(paths, own, place, more),
    decreases more,
{
    if upto < more {
        lemma_total_grows(paths, own, place, upto, more - 1);
    } else if upto > 0 {
        lemma_total_grows(paths, own, place, upto - 1, upto - 1);
    }
}

/// Whether two rows of bytes are the same.
pub fn same_bytes(a: &Vec<u8>, b: &Vec<u8>) -> (same: bool)
    ensures
        same == (a@ == b@),
{
    if a.len() != b.len() {
        return false;
    }
    let mut i: usize = 0;
    while i < a.len()
        invariant
            i <= a@.len() == b@.len(),
            forall|k: int| 0 <= k < i ==> a@[k] == b@[k],
        decreases a@.len() - i,
    {
        if a[i] != b[i] {
            return false;
        }
        i += 1;
    }
    assert(a@ =~= b@);
    true
}

/// Whether `prefix` stands at the start of `path`.
pub fn begins_with(path: &Vec<u8>, prefix: &Vec<u8>) -> (yes: bool)
    ensures
        yes == starts_with(path@, prefix@),
{
    if prefix.len() > path.len() {
        return false;
    }
    let mut i: usize = 0;
    while i < prefix.len()
        invariant
            i <= prefix@.len() <= path@.len(),
            forall|k: int| 0 <= k < i ==> path@[k] == prefix@[k],
        decreases prefix@.len() - i,
    {
        if path[i] != prefix[i] {
            assert(path@.subrange(0, prefix@.len() as int)[i as int] != prefix@[i as int]);
            return false;
        }
        i += 1;
    }
    assert(path@.subrange(0, prefix@.len() as int) =~= prefix@);
    true
}

/// The paths as rows of bytes.
pub open spec fn path_rows(paths: Seq<Vec<u8>>) -> Seq<Seq<u8>> {
    Seq::new(paths.len(), |i: int| paths[i]@)
}

/// The sizes as numbers.
pub open spec fn size_row(own: Seq<usize>) -> Seq<int> {
    Seq::new(own.len(), |i: int| own[i] as int)
}

/// Finds the first path that equals `path`; the number of paths where none
/// does.
pub fn find_directory(paths: &Vec<Vec<u8>>, path: &Vec<u8>) -> (place: usize)
    ensures
        place == find_path(path_rows(paths@), path@, paths@.len() as int),
        place <= paths@.len(),
{
    let ghost all = path_rows(paths@);
    let mut i: usize = 0;
    while i < paths.len()
        invariant
            i <= paths@.len(),
            all == path_rows(paths@),
            find_path(all, path@, i as int) == i,
        decreases paths@.len() - i,
    {
        assert(all[i as int] == paths@[i as int]@);
        if same_bytes(&paths[i], path) {
            proof {
                lemma_found(all, path@, i as int, paths@.len() as int);
            }
            return i;
        }
        i += 1;
    }
    i
}

/// A path that is found first at `place` is found there among more paths.
pub proof fn lemma_found(paths: Seq<Seq<u8>>, path: Seq<u8>, place: int, upto: int)
    requires
        0 <= place < upto <= paths.len(),
        find_path(paths, path, place) == place,
        paths[place] == path,
    ensures
        find_path(paths, path, upto) == place,
    decreases upto,
{
    if place < upto - 1 {
        lemma_found(paths, path, place, upto - 1);
    }
}

/// The path of the directory to which the names lead.
pub fn build_path(names: &Vec<Vec<u8>>) -> (path: Vec<u8>)
    ensures
        path@ == path_of(path_rows(names@)),
{
    let ghost all = path_rows(names@);
    let mut path: Vec<u8> = Vec::new();
    path.push(SLASH);
    let mut i: usize = 0;
    assert(all.take(0) =~= Seq::<Seq<u8>>::empty());
    while i < names.len()
        invariant
            i <= names@.len(),
            all == path_rows(names@),
            path@ == path_of(all.take(i as int)),
        decreases names@.len() - i,
    {
        let name = &names[i];
        let ghost before = path@;
        let mut j: usize = 0;
        while j < name.len()
            invariant
                j <= name@.len(),
                path@ == before + name@.take(j as int),
            decreases name@.len() - j,
        {
            path.push(name[j]);
            assert(name@.take(j + 1) == name@.take(j as int).push(name@[j as int]));
            assert(before + name@.take(j + 1) =~= (before + name@.take(j as int)).push(
                name@[j as int],
            ));
            j += 1;
        }
        path.push(SLASH);
        proof {
            assert(name@.take(j as int) == name@);
            assert(all.take(i + 1).drop_last() == all.take(i as int));
            assert(all.take(i + 1).last() == name@);
            assert(path@ =~= before + name@ + seq![SLASH]);
        }
        i += 1;
    }
    assert(all.take(i as int) == all);
    path
}

/// The rest of a line from `from` on.
pub fn rest_of(line: &Vec<u8>, from: usize) -> (rest: Vec<u8>)
    requires
        from <= line@.len(),
    ensures
        rest@ == line@.subrange(from as int, line@.len() as int),
{
    let mut rest: Vec<u8> = Vec::new();
    let mut i: usize = from;
    while i < line.len()
        invariant
            from <= i <= line@.len(),
            rest@ == line@.subrange(from as int, i as int),
        decreases line@.len() - i,
    {
        rest.push(line[i]);
        assert(line@.subrange(from as int, i + 1) == line@.subrange(from as int, i as int).push(
            line@[i as int],
        ));
        i += 1;
    }
    rest
}

/// Finds the first blank of a line.
pub fn find_blank(line: &Vec<u8>) -> (place: usize)
    ensures
        place == blank_at(line@, 0),
        place <= line@.len(),
{
    let mut i: usize = 0;
    while i < line.len() && line[i] != BLANK
        invariant
            i <= line@.len(),
            blank_at(line@, 0) == blank_at(line@, i as int),
        decreases line@.len() - i,
    {
        i += 1;
    }
    i
}

/// Whether a line is the given word and nothing else.
pub fn is_line(line: &Vec<u8>, word: &[u8]) -> (yes: bool)
    ensures
        yes == (line@ == word@),
{
    if line.len() != word.len() {
        return false;
    }
    let yes = has_word(line, 0, word);
    assert(line@.subrange(0, line@.len() as int) == line@);
    yes
}

/// The device as the reader holds it.
pub open spec fn device_of(
    paths: Seq<Vec<u8>>,
    own: Seq<usize>,
    names: Seq<Vec<u8>>,
    rooted: bool,
) -> Device {
    Device {
        paths: path_rows(paths),
        own: size_row(own),
        at: if rooted {
            Some(path_rows(names))
        } else {
            None
        },
    }
}

impl Puzzle {
    /// Reads the sizes of the directories from the listing of a device.  A
    /// text that is no such listing is refused and leaves the puzzle as it
    /// was.
    pub fn configure(&mut self, text: &str) -> (done: Result<(), Malformed>)
        ensures
            match done {
                Ok(_) => sizes_of(lines(text.spec_bytes())) == Some(
                    final(self).directories_size@,
                ),
                Err(e) => sizes_of(lines(text.spec_bytes())) is None && *final(self) == *old(self)
                    && e == Malformed::InvalidFormat,
            },
    {
        let found = split_lines(text.as_bytes());
        let ghost all = lines(text.spec_bytes());
        let word_root: [u8; 6] = [36, 32, 99, 100, 32, 47];
        let word_up: [u8; 7] = [36, 32, 99, 100, 32, 46, 46];
        let word_cd: [u8; 5] = [36, 32, 99, 100, 32];
        let word_ls: [u8; 4] = [36, 32, 108, 115];
        let word_dir: [u8; 4] = [100, 105, 114, 32];
        assert(word_root@ =~= self::word_root());
        assert(word_up@ =~= self::word_up());
        assert(word_cd@ =~= self::word_cd());
        assert(word_ls@ =~= self::word_ls());
        assert(word_dir@ =~= self::word_dir());
        let mut paths: Vec<Vec<u8>> = Vec::new();
        let mut own: Vec<usize> = Vec::new();
        let mut names: Vec<Vec<u8>> = Vec::new();
        let mut rooted: bool = false;
        let mut root: Vec<u8> = Vec::new();
        root.push(SLASH);
        paths.push(root);
        own.push(0);
        assert(path_rows(paths@) =~= seq![seq![SLASH]]);
        assert(size_row(own@) =~= seq![0int]);
        let mut i: usize = 0;
        while i < found.len()
            invariant
                i <= found@.len(),
                rows(found@) == all,
                all == lines(text.spec_bytes()),
                *self == *old(self),
                word_root@ == self::word_root(),
                word_up@ == self::word_up(),
                word_cd@ == self::word_cd(),
                word_ls@ == self::word_ls(),
                word_dir@ == self::word_dir(),
                paths@.len() == own@.len(),
                device_after(all, i as int) == Some(device_of(paths@, own@, names@, rooted)),
            decreases found@.len() - i,
        {
            let line = &found[i];
            let ghost device = device_of(paths@, own@, names@, rooted);
            assert(all[i as int] == line@);
            if is_line(line, word_root.as_slice()) {
                names = Vec::new();
                rooted = true;
                assert(path_rows(names@) =~= seq![]);
            } else if is_line(line, word_up.as_slice()) {
                if !rooted || names.len() == 0 {
                    proof {
                        lemma_listing_stops(all, i + 1, all.len() as int);
                    }
                    return Err(Malformed::InvalidFormat);
                }
                let ghost before = path_rows(names@);
                names.pop();
                assert(path_rows(names@) =~= before.drop_last());
            } else if has_word(line, 0, word_cd.as_slice()) {
                if !rooted || line.len() <= 5 {
                    proof {
                        lemma_listing_stops(all, i + 1, all.len() as int);
                    }
                    return Err(Malformed::InvalidFormat);
                }
                let ghost before = path_rows(names@);
                let name = rest_of(line, 5);
                names.push(name);
                assert(path_rows(names@) =~= before.push(line@.subrange(5, line@.len() as int)));
            } else if is_line(line, word_ls.as_slice()) {
            } else if has_word(line, 0, word_dir.as_slice()) {
                if !rooted {
                    proof {
                        lemma_listing_stops(all, i + 1, all.len() as int);
                    }
                    return Err(Malformed::InvalidFormat);
                }
                let mut path = build_path(&names);
                let name = rest_of(line, 4);
                let ghost start = path@;
                let mut j: usize = 0;
                while j < name.len()
                    invariant
                        j <= name@.len(),
                        path@ == start + name@.take(j as int),
                    decreases name@.len() - j,
                {
                    path.push(name[j]);
                    assert(name@.take(j + 1) == name@.take(j as int).push(name@[j as int]));
                    assert(start + name@.take(j + 1) =~= (start + name@.take(j as int)).push(
                        name@[j as int],
                    ));
                    j += 1;
                }
                path.push(SLASH);
                proof {
                    assert(name@.take(j as int) == name@);
                    assert(path@ =~= path_of(path_rows(names@)) + line@.subrange(
                        4,
                        line@.len() as int,
                    ) + seq![SLASH]);
                }
                let place = find_directory(&paths, &path);
                if place >= paths.len() {
                    let ghost old_paths = path_rows(paths@);
                    let ghost old_own = size_row(own@);
                    paths.push(path);
                    own.push(0);
                    assert(path_rows(paths@) =~= old_paths.push(path@));
                    assert(size_row(own@) =~= old_own.push(0int));
                }
            } else {
                let blank = find_blank(line);
                if !rooted || blank >= line.len() {
                    proof {
                        lemma_listing_stops(all, i + 1, all.len() as int);
                    }
                    return Err(Malformed::InvalidFormat);
                }
                let size = match read_number(line, 0, blank) {
                    Some(size) => size,
                    None => {
                        proof {
                            let names_now = path_rows(names@);
                            let place = find_path(
                                device.paths,
                                path_of(names_now),
                                device.paths.len() as int,
                            );
                            lemma_find_path(
                                device.paths,
                                path_of(names_now),
                                device.paths.len() as int,
                            );
                            if 0 <= place < device.own.len() {
                                assert(device.own[place] == own@[place]);
                            }
                            assert(device.at == Some(names_now));
                            assert(listed(device, line@) is None);
                            lemma_listing_stops(all, i + 1, all.len() as int);
                        }
                        return Err(Malformed::InvalidFormat);
                    },
                };
                let path = build_path(&names);
                let place = find_directory(&paths, &path);
                if place >= paths.len() {
                    proof {
                        lemma_listing_stops(all, i + 1, all.len() as int);
                    }
                    return Err(Malformed::InvalidFormat);
                }
                assert(device.own[place as int] == own@[place as int]);
                if size > usize::MAX - own[place] {
                    proof {
                        lemma_listing_stops(all, i + 1, all.len() as int);
                    }
                    return Err(Malformed::InvalidFormat);
                }
                let ghost old_own = size_row(own@);
                let grown: usize = own[place] + size;
                own.set(place, grown);
                assert(size_row(own@) =~= old_own.update(place as int, grown as int));
            }
            i += 1;
        }
        let ghost device = device_of(paths@, own@, names@, rooted);
        let n: usize = paths.len();
        let mut sizes: Vec<usize> = Vec::new();
        let mut d: usize = 0;
        while d < n
            invariant
                d <= n == paths@.len() == own@.len(),
                all == lines(text.spec_bytes()),
                *self == *old(self),
                device == device_of(paths@, own@, names@, rooted),
                device_after(all, all.len() as int) == Some(device),
                sizes@.len() == d,
                forall|k: int|
                    0 <= k < d ==> #[trigger] total(device.paths, device.own, k, n as int)
                        == sizes@[k],
            decreases n - d,
        {
            let mut sum: usize = 0;
            let mut j: usize = 0;
            while j < n
                invariant
                    j <= n == paths@.len() == own@.len(),
                    d < n,
                    device == device_of(paths@, own@, names@, rooted),
                    sum == total(device.paths, device.own, d as int, j as int),
                    device_after(all, all.len() as int) == Some(device),
                    all == lines(text.spec_bytes()),
                    *self == *old(self),
                decreases n - j,
            {
                assert(device.paths[j as int] == paths@[j as int]@);
                assert(device.paths[d as int] == paths@[d as int]@);
                assert(device.own[j as int] == own@[j as int]);
                if begins_with(&paths[j], &paths[d]) {
                    if own[j] > usize::MAX - sum {
                        proof {
                            lemma_total_grows(device.paths, device.own, d as int, j + 1, n as int);
                            assert(total(device.paths, device.own, d as int, n as int)
                                > usize::MAX);
                        }
                        return Err(Malformed::InvalidFormat);
                    }
                    sum = sum + own[j];
                }
                j += 1;
            }
            sizes.push(sum);
            d += 1;
        }
        proof {
            assert forall|k: int| 0 <= k < n implies #[trigger] total(
                device.paths,
                device.own,
                k,
                n as int,
            ) <= usize::MAX by {
                assert(total(device.paths, device.own, k, n as int) == sizes@[k]);
            }
            assert(sizes@ =~= totals(device)->0);
        }
        self.directories_size = sizes;
        Ok(())
    }

    /// No directory yet.
    pub fn new() -> (p: Puzzle)
        ensures
            p.directories_size@.len() == 0,
    {
        Puzzle { directories_size: Vec::new() }
    }

    /// The sum of the sizes of the small directories.
    pub fn part1(&self) -> (sum: usize)
        requires
            SMALL * self.directories_size@.len() <= usize::MAX,
        ensures
            sum == small_sum(self.directories_size@, self.directories_size@.len() as int),
    {
        let mut sum: usize = 0;
        let mut i: usize = 0;
        while i < self.directories_size.len()
            invariant
                i <= self.directories_size@.len(),
                SMALL * self.directories_size@.len() <= usize::MAX,
                sum == small_sum(self.directories_size@, i as int),
                sum <= SMALL * i,
            decreases self.directories_size@.len() - i,
        {
            let size: usize = self.directories_size[i];
            if size <= SMALL {
                sum = sum + size;
            }
            i += 1;
        }
        sum
    }

    /// The size of the smallest directory whose removal frees enough space
    /// for the update, where the largest size is the space in use.
    pub fn part2(&self) -> (size: usize)
        requires
            self.directories_size@.len() >= 1,
            FILESYSTEM_SIZE - UPDATE_SIZE <= largest(
                self.directories_size@,
                self.directories_size@.len() as int,
            ) <= FILESYSTEM_SIZE,
        ensures
            size == smallest_above(
                self.directories_size@,
                required_space(
                    largest(self.directories_size@, self.directories_size@.len() as int),
                ),
                self.directories_size@.len() as int,
            ),
    {
        let mut used_space: usize = 0;
        let mut i: usize = 0;
        while i < self.directories_size.len()
            invariant
                i <= self.directories_size@.len(),
                used_space == largest(self.directories_size@, i as int),
            decreases self.directories_size@.len() - i,
        {
            if self.directories_size[i] > used_space {
                used_space = self.directories_size[i];
            }
            i += 1;
        }
        let required: usize = UPDATE_SIZE - (FILESYSTEM_SIZE - used_space);
        let mut best: usize = FILESYSTEM_SIZE;
        let mut k: usize = 0;
        while k < self.directories_size.len()
            invariant
                k <= self.directories_size@.len(),
                best == smallest_above(self.directories_size@, required as int, k as int),
            decreases self.directories_size@.len() - k,
        {
            let size: usize = self.directories_size[k];
            if size > required && size < best {
                best = size;
            }
            k += 1;
        }
        best
    }
}

} // verus!
