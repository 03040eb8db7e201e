//! Unix paths as bytes. A path need not be valid UTF-8, and none of the decisions made here read
//! more of it than its separators.

use vstd::prelude::*;
use vstd::slice::slice_subrange;
use vstd::utf8::encode_utf8;

verus! {

/// The separator between the parts of a path.
pub const SEPARATOR: u8 = 47;

/// The view of an optional path.
pub open spec fn optional_path(path: Option<Vec<u8>>) -> Option<Seq<u8>> {
    match path {
        Some(p) => Some(p@),
        None => None,
    }
}

/// A value that is present and not empty. An empty environment variable counts as unset.
pub open spec fn assigned(value: Option<Seq<u8>>) -> bool {
    value matches Some(v) && v.len() > 0
}

/// A path with a relative `part` appended, separated unless the path ends in a separator or is
/// empty.
pub open spec fn extended(base: Seq<u8>, part: Seq<char>) -> Seq<u8> {
    if base.len() == 0 || base.last() == SEPARATOR {
        base + encode_utf8(part)
    } else {
        base.push(SEPARATOR) + encode_utf8(part)
    }
}

/// Append a relative part to a path.
pub fn extend(base: &[u8], part: &str) -> (path: Vec<u8>)
    ensures
        path@ == extended(base@, part@),
{
    let mut path: Vec<u8> = Vec::new();
    append(&mut path, base);
    assert(path@ =~= base@);
    if base.len() > 0 && base[base.len() - 1] != SEPARATOR {
        path.push(SEPARATOR);
    }
    append(&mut path, part.as_bytes());
    path
}

fn append(path: &mut Vec<u8>, bytes: &[u8])
    ensures
        final(path)@ == old(path)@ + bytes@,
{
    let mut i: usize = 0;
    let ghost start = path@;
    while i < bytes.len()
        invariant
            i <= bytes@.len(),
            path@ == start + bytes@.take(i as int),
        decreases bytes@.len() - i,
    {
        path.push(bytes[i]);
        i += 1;
        assert(path@ =~= start + bytes@.take(i as int));
    }
    assert(bytes@.take(i as int) =~= bytes@);
}

/// The last part of a path, past any trailing separators and `.` parts. There is none when the
/// path ends in `..`, which names no file.
pub open spec fn file_name(path: Seq<u8>) -> Option<Seq<u8>>
    decreases path.len(),
{
    let from = name_start(path, path.len() as int);
    let name = path.skip(from);
    if path.len() == 0 {
        None
    } else if name.len() == 0 {
        file_name(path.drop_last())
    } else if name == seq![46u8] {
        proof {
            lemma_name_start_in_range(path, path.len() as int);
        }
        file_name(path.take(from))
    } else if name == seq![46u8, 46u8] {
        None
    } else {
        Some(name)
    }
}

/// Where the part that ends at `end` begins: just after the last separator before `end`.
pub open spec fn name_start(path: Seq<u8>, end: int) -> int
    decreases end,
{
    if end <= 0 || end > path.len() || path[end - 1] == SEPARATOR {
        end
    } else {
        name_start(path, end - 1)
    }
}

/// A part begins inside the path.
pub proof fn lemma_name_start_in_range(path: Seq<u8>, end: int)
    requires
        0 <= end <= path.len(),
    ensures
        0 <= name_start(path, end) <= end,
    decreases end,
{
    if end > 0 && path[end - 1] != SEPARATOR {
        lemma_name_start_in_range(path, end - 1);
    }
}

proof fn lemma_name_start(path: Seq<u8>, from: int, end: int)
    requires
        0 <= from <= end <= path.len(),
        from > 0 ==> path[from - 1] == SEPARATOR,
        forall|k: int| from <= k < end ==> #[trigger] path[k] != SEPARATOR,
    ensures
        name_start(path, end) == from,
    decreases end,
{
    if from < end {
        assert(path[end - 1] != SEPARATOR);
        lemma_name_start(path, from, end - 1);
    }
}

/// The last part of a path, if it names a file.
pub fn last_name(path: &[u8]) -> (name: Option<&[u8]>)
    ensures
        match name {
            Some(n) => file_name(path@) == Some(n@),
            None => file_name(path@) is None,
        },
{
    let mut end: usize = path.len();
    assert(path@.take(end as int) =~= path@);
    while end > 0
        invariant
            end <= path@.len(),
            file_name(path@) == file_name(path@.take(end as int)),
        decreases end,
    {
        let ghost head = path@.take(end as int);
        let mut from: usize = end;
        while from > 0 && path[from - 1] != SEPARATOR
            invariant
                from <= end <= path@.len(),
                forall|k: int| from <= k < end ==> #[trigger] path@[k] != SEPARATOR,
            decreases from,
        {
            from -= 1;
        }
        let name = slice_subrange(path, from, end);
        proof {
            lemma_name_start(head, from as int, end as int);
            assert(name@ =~= head.skip(from as int));
            assert(head.drop_last() =~= path@.take(end - 1));
            assert(head.take(from as int) =~= path@.take(from as int));
        }
        if name.len() == 0 {
            end -= 1;
        } else if name.len() == 1 && name[0] == 46 {
            assert(name@ =~= seq![46u8]);
            end = from;
        } else {
            proof {
                let dots = seq![46u8, 46u8];
                assert(name@ != seq![46u8]) by {
                    if name@ == seq![46u8] {
                        assert(name@[0] == 46u8);
                    }
                }
                if name@.len() == 2 && name@[0] == 46 && name@[1] == 46 {
                    assert(name@ =~= dots);
                } else if name@ == dots {
                    assert(dots.len() == 2 && dots[0] == 46u8 && dots[1] == 46u8);
                }
            }
            if name.len() == 2 && name[0] == 46 && name[1] == 46 {
                return None;
            }
            return Some(name);
        }
    }
    None
}

/// Whether a name is the given text.
pub fn is_named(name: &[u8], text: &str) -> (yes: bool)
    ensures
        yes == (name@ == encode_utf8(text@)),
{
    let bytes = text.as_bytes();
    assert(bytes@ == encode_utf8(text@));
    if name.len() != bytes.len() {
        return false;
    }
    let mut i: usize = 0;
    while i < name.len()
        invariant
            name@.len() == bytes@.len(),
            bytes@ == encode_utf8(text@),
            i <= name@.len(),
            forall|k: int| 0 <= k < i ==> name@[k] == bytes@[k],
        decreases name@.len() - i,
    {
        if name[i] != bytes[i] {
            assert(name@[i as int] != bytes@[i as int]);
            return false;
        }
        i += 1;
    }
    assert(name@ =~= bytes@);
    true
}

/// A path and a part are joined by exactly one separator, and an empty path by none.
pub proof fn parts_are_joined_by_one_separator(base: Seq<u8>, part: Seq<char>)
    ensures
        extended(Seq::empty(), part) == encode_utf8(part),
        base.len() > 0 && base.last() == 47 ==> extended(base, part) == base + encode_utf8(part),
        base.len() > 0 && base.last() != 47 ==> extended(base, part) == base + seq![47u8]
            + encode_utf8(part),
{
    assert(extended(Seq::empty(), part) =~= encode_utf8(part));
    assert(base.push(47u8) =~= base + seq![47u8]);
}

/// A variable counts as assigned when it is there and not empty.
pub proof fn an_empty_variable_is_not_assigned(value: Seq<u8>)
    ensures
        !assigned(None),
        assigned(Some(value)) <==> value.len() > 0,
{
}

/// The view of an optional path is there when the path is, and holds its bytes.
pub proof fn an_optional_path_keeps_its_bytes(path: Option<Vec<u8>>)
    ensures
        path is None ==> optional_path(path) is None,
        path matches Some(p) ==> optional_path(path) == Some(p@),
{
}

/// The last part of a path is what follows the last separator, wherever the file is. Separators
/// and `.` parts at the end do not count, and neither nothing nor `..` names a file.
pub proof fn a_file_name_follows_the_last_separator(dir: Seq<u8>, name: Seq<u8>)
    requires
        name.len() > 0,
        forall|k: int| 0 <= k < name.len() ==> #[trigger] name[k] != 47,
    ensures
        file_name(Seq::empty()) is None,
        name != seq![46u8] && name != seq![46u8, 46u8] ==> file_name(name) == Some(name)
            && file_name(dir + seq![47u8] + name) == Some(name),
        file_name(dir + seq![47u8]) == file_name(dir),
        file_name(dir + seq![47u8, 46u8]) == file_name(dir),
        file_name(dir + seq![47u8, 46u8, 46u8]) is None,
        file_name(seq![46u8]) is None,
        file_name(seq![46u8, 46u8]) is None,
{
    lemma_name_start(name, 0, name.len() as int);
    assert(name.skip(0) =~= name);
    let whole = dir + seq![47u8] + name;
    let n = dir.len() as int + 1;
    assert forall|k: int| n <= k < whole.len() implies #[trigger] whole[k] != SEPARATOR by {
        assert(whole[k] == name[k - n]);
    }
    lemma_name_start(whole, n, whole.len() as int);
    assert(whole.skip(n) =~= name);
    let slash = dir + seq![47u8];
    lemma_name_start(slash, n, n);
    assert(slash.drop_last() =~= dir);
    let dot = dir + seq![47u8, 46u8];
    lemma_name_start(dot, n, n + 1);
    assert(dot.skip(n) =~= seq![46u8]);
    assert(dot.take(n) =~= slash);
    assert(file_name(dot) == file_name(slash));
    let dots = dir + seq![47u8, 46u8, 46u8];
    lemma_name_start(dots, n, n + 2);
    assert(dots.skip(n) =~= seq![46u8, 46u8]);
    assert(seq![46u8, 46u8].len() == 2 && seq![46u8].len() == 1);
    let one = seq![46u8];
    lemma_name_start(one, 0, 1);
    assert(one.skip(0) =~= one);
    assert(one.take(0) =~= Seq::empty());
    assert(file_name(one.take(0)) is None);
    let two = seq![46u8, 46u8];
    lemma_name_start(two, 0, 2);
    assert(two.skip(0) =~= two);
}

} // verus!
