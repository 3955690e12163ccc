use vstd::prelude::*;

verus! {

/// The pieces of `s` between occurrences of `sep`, in order; empty pieces are
/// kept, and there is always one piece more than there are separators.
pub open spec fn split_on(s: Seq<u8>, sep: u8) -> Seq<Seq<u8>>
    decreases s.len(),
{
    if s.len() == 0 {
        seq![Seq::empty()]
    } else {
        let r = split_on(s.drop_last(), sep);
        if s.last() == sep {
            r.push(Seq::empty())
        } else {
            r.update(r.len() - 1, r.last().push(s.last()))
        }
    }
}

/// Splitting always gives at least one piece.
pub proof fn lemma_split_nonempty(s: Seq<u8>, sep: u8)
    ensures
        split_on(s, sep).len() >= 1,
    decreases s.len(),
{
    if s.len() > 0 {
        lemma_split_nonempty(s.drop_last(), sep);
    }
}

/// The pieces of `s` between occurrences of `sep` (`split_on`).
pub fn split_bytes(s: &[u8], sep: u8) -> (r: Vec<Vec<u8>>)
    ensures
        r@.map_values(|p: Vec<u8>| p@) == split_on(s@, sep),
{
    let mut done: Vec<Vec<u8>> = Vec::new();
    let mut cur: Vec<u8> = Vec::new();
    let n = s.len();
    for i in 0..n
        invariant
            n == s@.len(),
            done@.map_values(|p: Vec<u8>| p@).push(cur@) == split_on(s@.subrange(0, i as int), sep),
    {
        proof {
            let t = s@.subrange(0, i + 1);
            assert(t.drop_last() =~= s@.subrange(0, i as int));
            lemma_split_nonempty(s@.subrange(0, i as int), sep);
        }
        if s[i] == sep {
            let ghost before = done@.map_values(|p: Vec<u8>| p@).push(cur@);
            done.push(cur);
            cur = Vec::new();
            assert(done@.map_values(|p: Vec<u8>| p@).push(cur@) =~= before.push(Seq::empty()));
        } else {
            let ghost before = done@.map_values(|p: Vec<u8>| p@).push(cur@);
            cur.push(s[i]);
            assert(done@.map_values(|p: Vec<u8>| p@).push(cur@) =~= before.update(before.len() - 1, before.last().push(s@[i as int])));
        }
    }
    assert(s@.subrange(0, n as int) =~= s@);
    let ghost fin = done@.map_values(|p: Vec<u8>| p@).push(cur@);
    done.push(cur);
    assert(done@.map_values(|p: Vec<u8>| p@) =~= fin);
    done
}


/// An ASCII decimal digit.
pub open spec fn is_digit(c: u8) -> bool {
    48 <= c <= 57
}

/// Every byte of `s` is a decimal digit.
pub open spec fn all_digits(s: Seq<u8>) -> bool {
    forall|i: int| 0 <= i < s.len() ==> is_digit(#[trigger] s[i])
}

/// The value of a string of decimal digits.
pub open spec fn digits_value(s: Seq<u8>) -> nat
    decreases s.len(),
{
    if s.len() == 0 {
        0
    } else {
        digits_value(s.drop_last()) * 10 + (s.last() - 48) as nat
    }
}

/// The integer that `s` spells: an optional `+` or `-` sign and at least one
/// decimal digit, nothing else.
pub open spec fn int_value(s: Seq<u8>) -> Option<int> {
    if s.len() == 0 {
        None
    } else if s[0] == 45 || s[0] == 43 {
        let d = s.skip(1);
        if d.len() > 0 && all_digits(d) {
            Some(if s[0] == 45 { -(digits_value(d) as int) } else { digits_value(d) as int })
        } else {
            None
        }
    } else if all_digits(s) {
        Some(digits_value(s) as int)
    } else {
        None
    }
}

/// `s` read as an `i32`: `int_value(s)` when it is in range.
pub open spec fn i32_value(s: Seq<u8>) -> Option<i32> {
    match int_value(s) {
        Some(v) => if i32::MIN <= v <= i32::MAX { Some(v as i32) } else { None },
        None => None,
    }
}

/// A longer string of digits is worth at least as much as any of its prefixes.
pub proof fn lemma_digits_value_prefix(s: Seq<u8>, k: int)
    requires
        all_digits(s),
        0 <= k <= s.len(),
    ensures
        digits_value(s.take(k)) <= digits_value(s),
    decreases s.len(),
{
    if k < s.len() {
        let t = s.drop_last();
        assert(all_digits(t)) by {
            assert forall|i: int| 0 <= i < t.len() implies is_digit(#[trigger] t[i]) by {
                assert(t[i] == s[i]);
            }
        }
        lemma_digits_value_prefix(t, k);
        assert(t.take(k) =~= s.take(k));
    } else {
        assert(s.take(k) =~= s);
    }
}

/// Reads `s` as an `i32` (`i32_value`): an optional sign and decimal digits, in range.
pub fn parse_i32(s: &[u8]) -> (r: Option<i32>)
    ensures
        r == i32_value(s@),
{
    let n = s.len();
    if n == 0 {
        return None;
    }
    let neg = s[0] == 45u8;
    let signed = s[0] == 45u8 || s[0] == 43u8;
    let start: usize = if signed { 1 } else { 0 };
    if start == n {
        return None;
    }
    let ghost d = s@.skip(start as int);
    proof {
        if !signed {
            assert(d =~= s@);
        }
    }
    let mut acc: i64 = 0;
    let mut i: usize = start;
    while i < n
        invariant
            start <= i <= n,
            n == s@.len(),
            n > 0,
            signed == (s@[0] == 45 || s@[0] == 43),
            neg == (s@[0] == 45),
            start == (if signed { 1usize } else { 0usize }),
            start < n,
            !signed ==> d == s@,
            d == s@.skip(start as int),
            acc == digits_value(d.take(i - start)),
            acc <= 2147483648,
            all_digits(d.take(i - start)),
        decreases n - i,
    {
        let c = s[i];
        if c < 48u8 || c > 57u8 {
            assert(!all_digits(d)) by {
                assert(d[i - start] == c);
                assert(!is_digit(d[i - start]));
            }
            assert(int_value(s@) is None);
            return None;
        }
        proof {
            let t = d.take(i - start + 1);
            assert(t.drop_last() =~= d.take(i - start));
            assert(t.last() == c);
            assert(all_digits(t)) by {
                assert forall|j: int| 0 <= j < t.len() implies is_digit(#[trigger] t[j]) by {
                    if j < t.len() - 1 {
                        assert(t[j] == d.take(i - start)[j]);
                    }
                }
            }
        }
        acc = acc * 10 + (c - 48u8) as i64;
        i = i + 1;
        assert(acc == digits_value(d.take(i - start)));
        if acc > 2147483648 {
            proof {
                if all_digits(d) {
                    lemma_digits_value_prefix(d, i - start);
                    assert(digits_value(d) > 2147483648);
                }
            }
            assert(i32_value(s@) is None);
            return None;
        }
    }
    assert(d.take(n - start) =~= d);
    assert(int_value(s@) == Some(if neg { -(digits_value(d) as int) } else { digits_value(d) as int }));
    if neg {
        Some((-acc) as i32)
    } else if acc > 2147483647 {
        None
    } else {
        Some(acc as i32)
    }
}


/// One corner of a face, `"v/t/n"`: the position, texture coordinate and normal
/// numbers, each made zero-based by subtracting one. Pieces after the third are
/// ignored.
pub open spec fn corner_spec(tok: Seq<u8>) -> Option<(i32, i32, i32)> {
    let parts = split_on(tok, 47);
    if parts.len() < 3 {
        None
    } else {
        match (i32_value(parts[0]), i32_value(parts[1]), i32_value(parts[2])) {
            (Some(v), Some(t), Some(n)) => if v > i32::MIN && t > i32::MIN && n > i32::MIN {
                Some(((v - 1) as i32, (t - 1) as i32, (n - 1) as i32))
            } else {
                None
            },
            _ => None,
        }
    }
}

/// The three corners of a face line `"f c1 c2 c3"`: fields are separated by single
/// spaces, the first field is the keyword, fields after the fourth are ignored.
pub open spec fn face_spec(line: Seq<u8>) -> Option<Seq<(i32, i32, i32)>> {
    let toks = split_on(line, 32);
    if toks.len() < 4 {
        None
    } else {
        match (corner_spec(toks[1]), corner_spec(toks[2]), corner_spec(toks[3])) {
            (Some(a), Some(b), Some(c)) => Some(seq![a, b, c]),
            _ => None,
        }
    }
}

/// Reads one face corner `"v/t/n"` (`corner_spec`).
pub fn parse_corner(tok: &[u8]) -> (r: Option<(i32, i32, i32)>)
    ensures
        r == corner_spec(tok@),
{
    let parts = split_bytes(tok, 47u8);
    let ghost views = parts@.map_values(|p: Vec<u8>| p@);
    if parts.len() < 3 {
        return None;
    }
    assert(views[0] == parts@[0]@ && views[1] == parts@[1]@ && views[2] == parts@[2]@);
    let v = parse_i32(parts[0].as_slice());
    let t = parse_i32(parts[1].as_slice());
    let n = parse_i32(parts[2].as_slice());
    match (v, t, n) {
        (Some(v), Some(t), Some(n)) => {
            if v > i32::MIN && t > i32::MIN && n > i32::MIN {
                Some((v - 1, t - 1, n - 1))
            } else {
                None
            }
        },
        _ => None,
    }
}

/// The kinds of line in a mesh file that the loader acts on.
#[derive(Clone, Copy, Debug, PartialEq, Eq, Structural)]
pub enum ObjKind {
    /// `"v "`: a vertex position.
    Vertex,
    /// `"vn "`: a normal vector.
    Normal,
    /// `"vt "`: a texture coordinate.
    TexCoord,
    /// `"f "`: a triangle.
    Face,
    /// Anything else, which is skipped.
    Other,
}

/// `line` starts with `prefix`.
pub open spec fn starts_with(line: Seq<u8>, prefix: Seq<u8>) -> bool {
    prefix.len() <= line.len() && line.subrange(0, prefix.len() as int) == prefix
}

/// The kind of `line`, by its first characters.
pub open spec fn obj_kind(line: Seq<u8>) -> ObjKind {
    if starts_with(line, seq![118u8, 32]) {
        ObjKind::Vertex
    } else if starts_with(line, seq![118u8, 110, 32]) {
        ObjKind::Normal
    } else if starts_with(line, seq![118u8, 116, 32]) {
        ObjKind::TexCoord
    } else if starts_with(line, seq![102u8, 32]) {
        ObjKind::Face
    } else {
        ObjKind::Other
    }
}

/// The number fields of a vertex, normal or texture coordinate line: the fields
/// after `skip` space-separated fields, `count` of them; `None` when the line has
/// fewer.
pub open spec fn number_fields(line: Seq<u8>, skip: int, count: int) -> Option<Seq<Seq<u8>>> {
    let toks = split_on(line, 32);
    if toks.len() < skip + count {
        None
    } else {
        Some(toks.subrange(skip, skip + count))
    }
}

/// What a line of a mesh file holds, with its fields.
pub enum ObjLine {
    /// The three coordinate fields of a vertex position.
    Vertex(Vec<Vec<u8>>),
    /// The three coordinate fields of a normal vector.
    Normal(Vec<Vec<u8>>),
    /// The two coordinate fields of a texture coordinate.
    TexCoord(Vec<Vec<u8>>),
    /// The three zero-based corners of a triangle.
    Face(Vec<(i32, i32, i32)>),
    /// A line that is skipped.
    Other,
}

/// The element views of a vector of byte vectors.
pub open spec fn views(f: Seq<Vec<u8>>) -> Seq<Seq<u8>> {
    f.map_values(|v: Vec<u8>| v@)
}

/// Where the fields of each kind of line start and how many there are: a vertex
/// line holds three after the keyword; a normal line three and a texture line two,
/// after the keyword and one more field (the empty field of a double space).
pub open spec fn fields_of(kind: ObjKind, line: Seq<u8>) -> Option<Seq<Seq<u8>>> {
    match kind {
        ObjKind::Vertex => number_fields(line, 1, 3),
        ObjKind::Normal => number_fields(line, 2, 3),
        ObjKind::TexCoord => number_fields(line, 2, 2),
        _ => None,
    }
}

fn take_fields(toks: &Vec<Vec<u8>>, skip: usize, count: usize) -> (r: Vec<Vec<u8>>)
    requires
        skip + count <= toks@.len(),
    ensures
        views(r@) == views(toks@).subrange(skip as int, (skip + count) as int),
{
    let mut r: Vec<Vec<u8>> = Vec::new();
    let mut i: usize = 0;
    let len = toks.len();
    while i < count
        invariant
            len == toks@.len(),
            i <= count,
            skip + count <= toks@.len(),
            views(r@) == views(toks@).subrange(skip as int, (skip + i) as int),
        decreases count - i,
    {
        let ghost before = views(r@);
        r.push(toks[skip + i].clone());
        assert(views(r@) =~= before.push(toks@[(skip + i) as int]@));
        i = i + 1;
        assert(views(r@) =~= views(toks@).subrange(skip as int, (skip + i) as int));
    }
    r
}

/// Reads one line of a mesh file. `None` when a vertex, normal or texture line has
/// too few fields, or a face line is not three well-formed corners.
pub fn parse_obj_line(line: &[u8]) -> (r: Option<ObjLine>)
    ensures
        match obj_kind(line@) {
            ObjKind::Face => match r {
                Some(ObjLine::Face(f)) => face_spec(line@) == Some(f@),
                None => face_spec(line@) is None,
                _ => false,
            },
            ObjKind::Other => r matches Some(ObjLine::Other),
            ObjKind::Vertex => match r {
                Some(ObjLine::Vertex(f)) => fields_of(ObjKind::Vertex, line@) == Some(views(f@)),
                None => fields_of(ObjKind::Vertex, line@) is None,
                _ => false,
            },
            ObjKind::Normal => match r {
                Some(ObjLine::Normal(f)) => fields_of(ObjKind::Normal, line@) == Some(views(f@)),
                None => fields_of(ObjKind::Normal, line@) is None,
                _ => false,
            },
            ObjKind::TexCoord => match r {
                Some(ObjLine::TexCoord(f)) => fields_of(ObjKind::TexCoord, line@) == Some(views(f@)),
                None => fields_of(ObjKind::TexCoord, line@) is None,
                _ => false,
            },
        },
{
    let n = line.len();
    let kind = if n >= 2 && line[0] == 118u8 && line[1] == 32u8 {
        ObjKind::Vertex
    } else if n >= 3 && line[0] == 118u8 && line[1] == 110u8 && line[2] == 32u8 {
        ObjKind::Normal
    } else if n >= 3 && line[0] == 118u8 && line[1] == 116u8 && line[2] == 32u8 {
        ObjKind::TexCoord
    } else if n >= 2 && line[0] == 102u8 && line[1] == 32u8 {
        ObjKind::Face
    } else {
        ObjKind::Other
    };
    proof {
        let l = line@;
        if n >= 2 {
            assert(l[0] == 118u8 && l[1] == 32u8 <==> l.subrange(0, 2) =~= seq![118u8, 32]);
            assert(l[0] == 102u8 && l[1] == 32u8 <==> l.subrange(0, 2) =~= seq![102u8, 32]);
        }
        if n >= 3 {
            assert(l[0] == 118u8 && l[1] == 110u8 && l[2] == 32u8 <==> l.subrange(0, 3) =~= seq![118u8, 110, 32]);
            assert(l[0] == 118u8 && l[1] == 116u8 && l[2] == 32u8 <==> l.subrange(0, 3) =~= seq![118u8, 116, 32]);
        }
        assert(kind == obj_kind(l));
    }
    match kind {
        ObjKind::Other => Some(ObjLine::Other),
        ObjKind::Face => {
            let toks = split_bytes(line, 32u8);
            if toks.len() < 4 {
                return None;
            }
            assert(views(toks@)[1] == toks@[1]@ && views(toks@)[2] == toks@[2]@ && views(toks@)[3] == toks@[3]@);
            let a = parse_corner(toks[1].as_slice());
            let b = parse_corner(toks[2].as_slice());
            let c = parse_corner(toks[3].as_slice());
            match (a, b, c) {
                (Some(a), Some(b), Some(c)) => {
                    let v = vec![a, b, c];
                    assert(v@ =~= seq![a, b, c]);
                    Some(ObjLine::Face(v))
                },
                _ => None,
            }
        },
        _ => {
            let (skip, count): (usize, usize) = match kind {
                ObjKind::Vertex => (1, 3),
                ObjKind::Normal => (2, 3),
                _ => (2, 2),
            };
            let toks = split_bytes(line, 32u8);
            if toks.len() < skip + count {
                return None;
            }
            let f = take_fields(&toks, skip, count);
            match kind {
                ObjKind::Vertex => Some(ObjLine::Vertex(f)),
                ObjKind::Normal => Some(ObjLine::Normal(f)),
                _ => Some(ObjLine::TexCoord(f)),
            }
        },
    }
}

} // verus!
