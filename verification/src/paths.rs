use crate::text::{same_text, substring, to_chars};
use vstd::prelude::*;

verus! {

/// The position of the last `c` in `s`, or -1 where there is none.
pub open spec fn last_index(s: Seq<char>, c: char) -> int
    decreases s.len(),
{
    if s.len() == 0 {
        -1
    } else if s.last() == c {
        s.len() - 1
    } else {
        last_index(s.drop_last(), c)
    }
}

/// The length of a path without what names nothing at its end: the `/`
/// that close it, and the parts that are a single `.`.
pub open spec fn name_end(path: Seq<char>) -> int
    decreases path.len(),
{
    if path.len() == 0 {
        0
    } else if path.last() == '/' {
        name_end(path.drop_last())
    } else if path.last() == '.' && (path.len() == 1 || path[path.len() - 2] == '/') {
        name_end(path.drop_last())
    } else {
        path.len() as int
    }
}

/// The last part of a path, between two `/`, behind the last `/` or the
/// whole path, when what names nothing at its end is passed over.
pub open spec fn last_part(path: Seq<char>) -> Seq<char> {
    let whole = path.take(name_end(path));
    whole.skip(last_index(whole, '/') + 1)
}

/// The file name of a path: its last part. A path without parts has none,
/// and a path whose last part is `..` has none: it leads back, not to a
/// file. Parts are kept apart by `/`.
pub open spec fn file_name(path: Seq<char>) -> Option<Seq<char>> {
    let name = last_part(path);
    if name.len() == 0 || name == seq!['.', '.'] {
        None
    } else {
        Some(name)
    }
}

/// The stem of a file name: what stands before its last `.`. A name without
/// `.`, or with its only `.` in front, is its own stem.
pub open spec fn file_stem(file: Seq<char>) -> Seq<char> {
    let dot = last_index(file, '.');
    if dot > 0 {
        file.take(dot)
    } else {
        file
    }
}

/// The extension of a file name: what follows its last `.`. A name without
/// `.`, or with its only `.` in front, has none.
pub open spec fn file_extension(file: Seq<char>) -> Option<Seq<char>> {
    let dot = last_index(file, '.');
    if dot > 0 {
        Some(file.skip(dot + 1))
    } else {
        None
    }
}

/// The stem of the file that a path names, where it names one.
pub open spec fn path_stem(path: Seq<char>) -> Option<Seq<char>> {
    match file_name(path) {
        Some(file) => Some(file_stem(file)),
        None => None,
    }
}

/// The name of the template that a path leads to: the stem of its file
/// name, where the extension is `pony`. Any other path leads to no
/// template.
pub open spec fn template_name(path: Seq<char>) -> Option<Seq<char>> {
    match file_name(path) {
        Some(file) => if file_extension(file) == Some("pony"@) {
            Some(file_stem(file))
        } else {
            None
        },
        None => None,
    }
}

/// Whether `s` ends with `suffix`.
pub open spec fn ends_with(s: Seq<char>, suffix: Seq<char>) -> bool {
    s.len() >= suffix.len() && s.skip(s.len() - suffix.len()) == suffix
}

/// Finds the last `c` among `chars`.
pub fn find_last(chars: &Vec<char>, c: char) -> (found: Option<usize>)
    ensures
        match found {
            Some(i) => last_index(chars@, c) == i && i < chars.len(),
            None => last_index(chars@, c) == -1,
        },
{
    let mut end: usize = chars.len();
    assert(chars@.take(end as int) =~= chars@);
    while end > 0
        invariant
            end <= chars.len(),
            last_index(chars@, c) == last_index(chars@.take(end as int), c),
        decreases end,
    {
        proof {
            let front = chars@.take(end as int);
            assert(front.last() == chars@[end - 1]);
            assert(front.drop_last() =~= chars@.take(end - 1));
        }
        if chars[end - 1] == c {
            return Some(end - 1);
        }
        end -= 1;
    }
    None
}

/// Whether `chars` ends with `suffix`.
pub fn has_suffix(chars: &Vec<char>, suffix: &Vec<char>) -> (found: bool)
    ensures
        found == ends_with(chars@, suffix@),
{
    if chars.len() < suffix.len() {
        return false;
    }
    let offset = chars.len() - suffix.len();
    let ghost tail = chars@.skip(offset as int);
    let mut i: usize = 0;
    while i < suffix.len()
        invariant
            i <= suffix.len(),
            offset + suffix.len() == chars.len(),
            tail == chars@.skip(offset as int),
            forall|k: int| 0 <= k < i ==> tail[k] == suffix@[k],
        decreases suffix.len() - i,
    {
        if chars[offset + i] != suffix[i] {
            assert(tail[i as int] != suffix@[i as int]);
            return false;
        }
        i += 1;
    }
    assert(tail =~= suffix@);
    true
}

/// The characters `chars[from..to]`.
pub fn part(chars: &Vec<char>, from: usize, to: usize) -> (out: Vec<char>)
    requires
        from <= to <= chars.len(),
    ensures
        out@ == chars@.subrange(from as int, to as int),
{
    let mut out: Vec<char> = Vec::new();
    let mut i: usize = from;
    while i < to
        invariant
            from <= i <= to <= chars.len(),
            out@ == chars@.subrange(from as int, i as int),
        decreases to - i,
    {
        out.push(chars[i]);
        i += 1;
        assert(chars@.subrange(from as int, i as int) =~= chars@.subrange(from as int, i - 1).push(
            chars@[i - 1],
        ));
    }
    out
}

/// The length of a path without what names nothing at its end.
pub fn find_name_end(chars: &Vec<char>) -> (end: usize)
    ensures
        end == name_end(chars@),
        end <= chars.len(),
{
    let mut end: usize = chars.len();
    assert(chars@.take(end as int) =~= chars@);
    while end > 0 && (chars[end - 1] == '/' || (chars[end - 1] == '.' && (end == 1 || chars[end
        - 2] == '/')))
        invariant
            end <= chars.len(),
            name_end(chars@) == name_end(chars@.take(end as int)),
        decreases end,
    {
        proof {
            let front = chars@.take(end as int);
            assert(front.last() == chars@[end - 1]);
            assert(end > 1 ==> front[end - 2] == chars@[end - 2]);
            assert(front.drop_last() =~= chars@.take(end - 1));
        }
        end -= 1;
    }
    proof {
        let front = chars@.take(end as int);
        if end > 0 {
            assert(front.last() == chars@[end - 1]);
            assert(end > 1 ==> front[end - 2] == chars@[end - 2]);
        }
    }
    end
}

/// The file name of a path, as characters, where the path names a file.
pub fn file_name_of(path: &str) -> (file: Option<Vec<char>>)
    ensures
        match file {
            Some(name) => file_name(path@) == Some(name@),
            None => file_name(path@) is None,
        },
{
    let chars = to_chars(path);
    let end = find_name_end(&chars);
    let whole = part(&chars, 0, end);
    assert(whole@ =~= path@.take(end as int));
    let start = match find_last(&whole, '/') {
        Some(slash) => slash + 1,
        None => 0,
    };
    let name = part(&whole, start, end);
    assert(name@ =~= last_part(path@));
    if name.len() == 0 {
        return None;
    }
    if name.len() == 2 && name[0] == '.' && name[1] == '.' {
        assert(name@ =~= seq!['.', '.']);
        return None;
    }
    proof {
        if name@ == seq!['.', '.'] {
            assert(seq!['.', '.'].len() == 2);
            assert(seq!['.', '.'][0] == '.' && seq!['.', '.'][1] == '.');
        }
    }
    Some(name)
}

/// The stem of the file that a path names, where it names one.
pub fn file_stem_of(path: &str) -> (stem: Option<String>)
    ensures
        match stem {
            Some(stem) => path_stem(path@) == Some(stem@),
            None => path_stem(path@) is None,
        },
{
    match file_name_of(path) {
        Some(file) => {
            let end = match find_last(&file, '.') {
                Some(dot) => if dot > 0 {
                    dot
                } else {
                    file.len()
                },
                None => file.len(),
            };
            assert(file@.subrange(0, end as int) =~= file_stem(file@));
            Some(substring(&file, 0, end))
        },
        None => None,
    }
}

/// The name of the template that a path leads to, where it leads to one.
pub fn to_pony_name(path: &str) -> (name: Option<String>)
    ensures
        match name {
            Some(name) => template_name(path@) == Some(name@),
            None => template_name(path@) is None,
        },
{
    let file = match file_name_of(path) {
        Some(file) => file,
        None => {
            return None;
        },
    };
    match find_last(&file, '.') {
        Some(dot) => {
            if dot == 0 {
                return None;
            }
            let extension = substring(&file, dot + 1, file.len());
            assert(extension@ =~= file@.skip(dot + 1));
            if same_text(extension.as_str(), "pony") {
                assert(file@.subrange(0, dot as int) =~= file@.take(dot as int));
                Some(substring(&file, 0, dot))
            } else {
                None
            }
        },
        None => None,
    }
}

} // verus!
