//! The text form of a mesh: a count of points, a line of three coordinates
//! for each point, a count of triangles, and a line of three point indices
//! for each triangle.

use vstd::prelude::*;
use vstd::slice::slice_subrange;
use crate::decimal::coordinate_of;
use crate::decimal::coordinate_text;
use crate::decimal::count_text;
use crate::decimal::write_coordinate;
use crate::decimal::write_count;
use crate::decimal::is_digit;
use crate::decimal::is_number_word;
use crate::decimal::lemma_coordinate_round_trip;
use crate::decimal::lemma_coordinate_text_is_word;
use crate::decimal::lemma_count_round_trip;
use crate::decimal::lemma_count_text;
use crate::decimal::count_of;
use crate::decimal::parse_coordinate;
use crate::decimal::parse_count;
use crate::triangle::Triplet;
use crate::vector::Vector3;

verus! {

/// The byte that ends a line.
pub const NEWLINE: u8 = 10;

/// The byte that may stand before the end of a line.
pub const CARRIAGE_RETURN: u8 = 13;

/// The byte between two numbers.
pub const SPACE: u8 = 32;

/// Whether the byte is white space: a space, a tab, or an end of line of
/// some form.
pub open spec fn is_space(b: u8) -> bool {
    b == 32 || (9 <= b <= 13)
}

/// The place of the first newline at or after `from`, or the end of the
/// text.
pub open spec fn line_end(text: Seq<u8>, from: int) -> int
    decreases text.len() - from,
{
    if 0 <= from < text.len() && text[from] != NEWLINE {
        line_end(text, from + 1)
    } else {
        from
    }
}

/// The place after the newline that ends the line at `from`, or the end of
/// the text.
pub open spec fn after_line(text: Seq<u8>, from: int) -> int {
    let end = line_end(text, from);
    if end < text.len() {
        end + 1
    } else {
        end
    }
}

/// Where the line `k` begins. The text has no line `k` if this is the end
/// of the text.
pub open spec fn line_start(text: Seq<u8>, k: nat) -> int
    decreases k,
{
    if k == 0 {
        0
    } else {
        after_line(text, line_start(text, (k - 1) as nat))
    }
}

/// Whether the text has a line `k`. A text that ends with a newline has no
/// line after it.
pub open spec fn has_line(text: Seq<u8>, k: nat) -> bool {
    line_start(text, k) < text.len()
}

/// The line that begins at `from`, without the newline that ends it and
/// without a carriage return before that newline.
pub open spec fn line_at(text: Seq<u8>, from: int) -> Seq<u8> {
    let end = line_end(text, from);
    let stop = if from < end < text.len() && text[end - 1] == CARRIAGE_RETURN {
        end - 1
    } else {
        end
    };
    text.subrange(from, stop)
}

/// The line `k` of the text.
pub open spec fn line(text: Seq<u8>, k: nat) -> Seq<u8> {
    line_at(text, line_start(text, k))
}

/// Whether a token begins at the place: a byte that is no white space, at
/// the beginning of the line or after white space.
pub open spec fn starts_token(line: Seq<u8>, at: int) -> bool {
    &&& 0 <= at < line.len()
    &&& !is_space(line[at])
    &&& (at == 0 || is_space(line[at - 1]))
}

/// The place of the first white space at or after `from`, or the end of
/// the line.
pub open spec fn token_end(line: Seq<u8>, from: int) -> int
    decreases line.len() - from,
{
    if 0 <= from < line.len() && !is_space(line[from]) {
        token_end(line, from + 1)
    } else {
        from
    }
}

/// The tokens that begin at or after `from`.
pub open spec fn tokens_from(line: Seq<u8>, from: int) -> Seq<Seq<u8>>
    decreases line.len() - from,
{
    if from < 0 || from >= line.len() {
        Seq::empty()
    } else if starts_token(line, from) {
        seq![line.subrange(from, token_end(line, from))] + tokens_from(line, from + 1)
    } else {
        tokens_from(line, from + 1)
    }
}

/// The tokens of a line: its runs of bytes that are no white space.
pub open spec fn tokens_of(line: Seq<u8>) -> Seq<Seq<u8>> {
    tokens_from(line, 0)
}

/// The point that a line writes: three coordinates.
pub open spec fn point_of(line: Seq<u8>) -> Option<Vector3> {
    let tokens = tokens_of(line);
    if tokens.len() != 3 {
        None
    } else {
        match (coordinate_of(tokens[0]), coordinate_of(tokens[1]), coordinate_of(tokens[2])) {
            (Some(x), Some(y), Some(z)) => Some(Vector3 { x, y, z }),
            _ => None,
        }
    }
}

/// The triangle that a line writes: three point indices.
pub open spec fn triangle_of(line: Seq<u8>) -> Option<Triplet> {
    let tokens = tokens_of(line);
    if tokens.len() != 3 {
        None
    } else {
        match (count_of(tokens[0]), count_of(tokens[1]), count_of(tokens[2])) {
            (Some(a), Some(b), Some(c)) => Some((a, b, c)),
            _ => None,
        }
    }
}

/// Whether the `n` lines from line `first` on are there and each writes a
/// point.
pub open spec fn points_written(text: Seq<u8>, first: nat, n: nat) -> bool {
    forall|i: nat| i < n ==> has_line(text, first + i) && point_of(#[trigger] line(text, first + i))
        is Some
}

/// Whether the `m` lines from line `first` on are there and each writes a
/// triangle.
pub open spec fn triangles_written(text: Seq<u8>, first: nat, m: nat) -> bool {
    forall|j: nat|
        j < m ==> has_line(text, first + j) && triangle_of(#[trigger] line(text, first + j))
            is Some
}

/// The mesh that a text writes: on line 0 the number `n` of points, then
/// `n` lines with a point each, then a line with the number `m` of
/// triangles, then `m` lines with a triangle each. What follows is not
/// read. A text that is written otherwise writes no mesh.
pub open spec fn mesh_of(text: Seq<u8>) -> Option<(Seq<Vector3>, Seq<Triplet>)> {
    if !has_line(text, 0) {
        None
    } else {
        match count_of(line(text, 0)) {
            None => None,
            Some(n) => {
                if !points_written(text, 1, n as nat) || !has_line(text, (n + 1) as nat) {
                    None
                } else {
                    match count_of(line(text, (n + 1) as nat)) {
                        None => None,
                        Some(m) => {
                            if !triangles_written(text, (n + 2) as nat, m as nat) {
                                None
                            } else {
                                Some(
                                    (
                                        Seq::new(
                                            n as nat,
                                            |i: int| point_of(line(text, (1 + i) as nat))->0,
                                        ),
                                        Seq::new(
                                            m as nat,
                                            |j: int|
                                                triangle_of(line(text, (n + 2 + j) as nat))->0,
                                        ),
                                    ),
                                )
                            }
                        },
                    }
                }
            },
        }
    }
}

/// Finds the end of the line that begins at `from`: where the line stops,
/// and where the next line begins.
fn read_line(text: &[u8], from: usize) -> (r: (usize, usize))
    requires
        from <= text@.len(),
    ensures
        from <= r.0 <= r.1 <= text@.len(),
        text@.subrange(from as int, r.0 as int) == line_at(text@, from as int),
        r.1 == after_line(text@, from as int),
{
    let mut end: usize = from;
    while end < text.len() && text[end] != NEWLINE
        invariant
            from <= end <= text@.len(),
            line_end(text@, from as int) == line_end(text@, end as int),
        decreases text@.len() - end,
    {
        end += 1;
    }
    let stop: usize = if from < end && end < text.len() && text[end - 1] == CARRIAGE_RETURN {
        end - 1
    } else {
        end
    };
    let next: usize = if end < text.len() {
        end + 1
    } else {
        end
    };
    (stop, next)
}

/// Inside a token no token begins.
proof fn lemma_no_token_inside(line: Seq<u8>, from: int, end: int)
    requires
        0 <= from < end <= line.len(),
        forall|i: int| from <= i < end ==> !is_space(#[trigger] line[i]),
    ensures
        tokens_from(line, from + 1) == tokens_from(line, end),
    decreases end - from,
{
    if from + 1 < end {
        lemma_no_token_inside(line, from + 1, end);
    }
}

/// Finds the tokens of a line: where each begins and ends.
pub fn split_tokens(line: &[u8]) -> (r: Vec<(usize, usize)>)
    ensures
        r@.len() == tokens_of(line@).len(),
        forall|i: int|
            0 <= i < r@.len() ==> (#[trigger] r@[i]).0 <= r@[i].1 <= line@.len() && line@.subrange(
                r@[i].0 as int,
                r@[i].1 as int,
            ) == tokens_of(line@)[i],
{
    let mut found: Vec<(usize, usize)> = Vec::new();
    let mut at: usize = 0;
    let ghost mut done: Seq<Seq<u8>> = Seq::empty();
    assert(done + tokens_from(line@, 0) =~= tokens_of(line@));
    while at < line.len()
        invariant
            at <= line@.len(),
            at == 0 || at == line@.len() || is_space(line@[at as int]) || is_space(
                line@[at - 1],
            ),
            done + tokens_from(line@, at as int) == tokens_of(line@),
            found@.len() == done.len(),
            forall|i: int|
                0 <= i < found@.len() ==> (#[trigger] found@[i]).0 <= found@[i].1 <= line@.len()
                    && line@.subrange(found@[i].0 as int, found@[i].1 as int) == done[i],
        decreases line@.len() - at,
    {
        let b: u8 = line[at];
        if b == 32 || (9 <= b && b <= 13) {
            at += 1;
        } else {
            let mut end: usize = at + 1;
            while end < line.len() && !(line[end] == 32 || (9 <= line[end] && line[end] <= 13))
                invariant
                    at < end <= line@.len(),
                    token_end(line@, at as int) == token_end(line@, end as int),
                    forall|i: int| at <= i < end ==> !is_space(#[trigger] line@[i]),
                decreases line@.len() - end,
            {
                end += 1;
            }
            proof {
                lemma_no_token_inside(line@, at as int, end as int);
                let token = line@.subrange(at as int, end as int);
                assert(done.push(token) + tokens_from(line@, end as int) =~= done + (seq![token]
                    + tokens_from(line@, at + 1)));
                done = done.push(token);
            }
            found.push((at, end));
            at = end;
        }
    }
    assert(done + tokens_from(line@, at as int) =~= done);
    found
}

/// Reads a point from a line.
pub fn parse_point(line: &[u8]) -> (r: Option<Vector3>)
    ensures
        r == point_of(line@),
{
    let tokens = split_tokens(line);
    if tokens.len() != 3 {
        return None;
    }
    let x = parse_coordinate(slice_subrange(line, tokens[0].0, tokens[0].1));
    let y = parse_coordinate(slice_subrange(line, tokens[1].0, tokens[1].1));
    let z = parse_coordinate(slice_subrange(line, tokens[2].0, tokens[2].1));
    match (x, y, z) {
        (Some(x), Some(y), Some(z)) => Some(Vector3 { x, y, z }),
        _ => None,
    }
}

/// Reads a triangle from a line.
pub fn parse_triangle(line: &[u8]) -> (r: Option<Triplet>)
    ensures
        r == triangle_of(line@),
{
    let tokens = split_tokens(line);
    if tokens.len() != 3 {
        return None;
    }
    let a = parse_count(slice_subrange(line, tokens[0].0, tokens[0].1));
    let b = parse_count(slice_subrange(line, tokens[1].0, tokens[1].1));
    let c = parse_count(slice_subrange(line, tokens[2].0, tokens[2].1));
    match (a, b, c) {
        (Some(a), Some(b), Some(c)) => Some((a, b, c)),
        _ => None,
    }
}

/// Reads a mesh from its text.
pub fn parse_mesh(text: &[u8]) -> (r: Option<(Vec<Vector3>, Vec<Triplet>)>)
    ensures
        match r {
            None => mesh_of(text@) is None,
            Some((points, triangles)) => mesh_of(text@) == Some((points@, triangles@)),
        },
{
    let mut at: usize = 0;
    if at >= text.len() {
        return None;
    }
    let (stop, next) = read_line(text, at);
    let n: usize = match parse_count(slice_subrange(text, at, stop)) {
        None => {
            return None;
        },
        Some(n) => n,
    };
    at = next;
    let mut points: Vec<Vector3> = Vec::new();
    let mut i: usize = 0;
    while i < n
        invariant
            i <= n,
            has_line(text@, 0),
            count_of(line(text@, 0)) == Some(n),
            at <= text@.len(),
            at == line_start(text@, (1 + i) as nat),
            points@.len() == i,
            forall|j: nat|
                j < i ==> has_line(text@, 1 + j) && point_of(#[trigger] line(text@, 1 + j)) == Some(
                    points@[j as int],
                ),
        decreases n - i,
    {
        if at >= text.len() {
            proof {
                assert(!has_line(text@, 1 + i as nat));
                assert(!points_written(text@, 1, n as nat));
            }
            return None;
        }
        let (stop, next) = read_line(text, at);
        match parse_point(slice_subrange(text, at, stop)) {
            None => {
                proof {
                    assert(point_of(line(text@, 1 + i as nat)) is None);
                    assert(!points_written(text@, 1, n as nat));
                }
                return None;
            },
            Some(point) => {
                points.push(point);
            },
        }
        at = next;
        i += 1;
    }
    assert(points_written(text@, 1, n as nat));
    if at >= text.len() {
        return None;
    }
    let (stop, next) = read_line(text, at);
    let m: usize = match parse_count(slice_subrange(text, at, stop)) {
        None => {
            return None;
        },
        Some(m) => m,
    };
    at = next;
    let mut triangles: Vec<Triplet> = Vec::new();
    let mut j: usize = 0;
    while j < m
        invariant
            j <= m,
            has_line(text@, 0),
            count_of(line(text@, 0)) == Some(n),
            points_written(text@, 1, n as nat),
            has_line(text@, (n + 1) as nat),
            count_of(line(text@, (n + 1) as nat)) == Some(m),
            at <= text@.len(),
            at == line_start(text@, (n + 2 + j) as nat),
            triangles@.len() == j,
            forall|k: nat|
                k < j ==> has_line(text@, (n + 2) as nat + k) && triangle_of(
                    #[trigger] line(text@, (n + 2) as nat + k),
                ) == Some(triangles@[k as int]),
        decreases m - j,
    {
        if at >= text.len() {
            proof {
                assert(!has_line(text@, (n + 2) as nat + j as nat));
                assert(!triangles_written(text@, (n + 2) as nat, m as nat));
            }
            return None;
        }
        let (stop, next) = read_line(text, at);
        match parse_triangle(slice_subrange(text, at, stop)) {
            None => {
                proof {
                    assert(triangle_of(line(text@, (n + 2) as nat + j as nat)) is None);
                    assert(!triangles_written(text@, (n + 2) as nat, m as nat));
                }
                return None;
            },
            Some(triangle) => {
                triangles.push(triangle);
            },
        }
        at = next;
        j += 1;
    }
    proof {
        let written = mesh_of(text@)->0;
        assert(triangles_written(text@, (n + 2) as nat, m as nat));
        assert(written.0 =~= points@) by {
            assert forall|i: int| 0 <= i < n implies written.0[i] == points@[i] by {
                let _ = line(text@, 1 + i as nat);
            }
        }
        assert(written.1 =~= triangles@) by {
            assert forall|j: int| 0 <= j < m implies written.1[j] == triangles@[j] by {
                let _ = line(text@, (n + 2) as nat + j as nat);
            }
        }
    }
    Some((points, triangles))
}

/// The lines, each with a newline after it.
pub open spec fn joined(lines: Seq<Seq<u8>>) -> Seq<u8>
    decreases lines.len(),
{
    if lines.len() == 0 {
        Seq::empty()
    } else {
        joined(lines.drop_last()) + lines.last().push(NEWLINE)
    }
}

/// The line that writes a point: its coordinates with a space between.
pub open spec fn point_line(p: Vector3) -> Seq<u8> {
    coordinate_text(p.x as int).push(SPACE) + coordinate_text(p.y as int).push(SPACE)
        + coordinate_text(p.z as int)
}

/// The line that writes a triangle: its point indices with a space between.
pub open spec fn triangle_line(t: Triplet) -> Seq<u8> {
    count_text(t.0 as nat).push(SPACE) + count_text(t.1 as nat).push(SPACE) + count_text(
        t.2 as nat,
    )
}

/// The lines that write a mesh: the number of points, a line for each
/// point, the number of triangles, a line for each triangle.
pub open spec fn mesh_lines(points: Seq<Vector3>, triangles: Seq<Triplet>) -> Seq<Seq<u8>> {
    seq![count_text(points.len())] + Seq::new(points.len(), |i: int| point_line(points[i]))
        + seq![count_text(triangles.len())] + Seq::new(
        triangles.len(),
        |j: int| triangle_line(triangles[j]),
    )
}

/// The text that writes a mesh.
pub open spec fn mesh_text(points: Seq<Vector3>, triangles: Seq<Triplet>) -> Seq<u8> {
    joined(mesh_lines(points, triangles))
}

/// One more line at the end of a text of lines.
proof fn lemma_joined_push(lines: Seq<Seq<u8>>, last: Seq<u8>)
    ensures
        joined(lines.push(last)) == joined(lines) + last.push(NEWLINE),
{
    assert(lines.push(last).drop_last() =~= lines);
}

/// Writes a mesh as text.
pub fn format_mesh(coordinates: &[Vector3], triangles: &Vec<Triplet>) -> (r: Vec<u8>)
    ensures
        r@ == mesh_text(coordinates@, triangles@),
{
    let mut out: Vec<u8> = Vec::new();
    let ghost mut lines: Seq<Seq<u8>> = Seq::empty();
    write_count(coordinates.len() as u128, &mut out);
    out.push(NEWLINE);
    proof {
        lemma_joined_push(lines, count_text(coordinates@.len()));
        lines = lines.push(count_text(coordinates@.len()));
        assert(out@ =~= joined(lines));
    }
    let mut i: usize = 0;
    while i < coordinates.len()
        invariant
            i <= coordinates@.len(),
            out@ == joined(lines),
            lines == seq![count_text(coordinates@.len())] + Seq::new(
                i as nat,
                |k: int| point_line(coordinates@[k]),
            ),
        decreases coordinates@.len() - i,
    {
        let point: Vector3 = coordinates[i];
        let ghost before = out@;
        write_coordinate(point.x, &mut out);
        out.push(SPACE);
        write_coordinate(point.y, &mut out);
        out.push(SPACE);
        write_coordinate(point.z, &mut out);
        out.push(NEWLINE);
        proof {
            lemma_joined_push(lines, point_line(point));
            assert(out@ =~= before + point_line(point).push(NEWLINE));
            let longer = lines.push(point_line(point));
            assert(longer =~= seq![count_text(coordinates@.len())] + Seq::new(
                (i + 1) as nat,
                |k: int| point_line(coordinates@[k]),
            ));
            lines = longer;
        }
        i += 1;
    }
    write_count(triangles.len() as u128, &mut out);
    out.push(NEWLINE);
    let ghost head = lines;
    proof {
        lemma_joined_push(lines, count_text(triangles@.len()));
        assert(out@ =~= joined(lines) + count_text(triangles@.len()).push(NEWLINE));
        lines = lines.push(count_text(triangles@.len()));
        assert(lines =~= head + seq![count_text(triangles@.len())] + Seq::new(
            0,
            |k: int| triangle_line(triangles@[k]),
        ));
    }
    let mut j: usize = 0;
    while j < triangles.len()
        invariant
            j <= triangles@.len(),
            out@ == joined(lines),
            head == seq![count_text(coordinates@.len())] + Seq::new(
                coordinates@.len(),
                |k: int| point_line(coordinates@[k]),
            ),
            lines == head + seq![count_text(triangles@.len())] + Seq::new(
                j as nat,
                |k: int| triangle_line(triangles@[k]),
            ),
        decreases triangles@.len() - j,
    {
        let t: Triplet = triangles[j];
        let ghost before = out@;
        write_count(t.0 as u128, &mut out);
        out.push(SPACE);
        write_count(t.1 as u128, &mut out);
        out.push(SPACE);
        write_count(t.2 as u128, &mut out);
        out.push(NEWLINE);
        proof {
            lemma_joined_push(lines, triangle_line(t));
            assert(out@ =~= before + triangle_line(t).push(NEWLINE));
            let longer = lines.push(triangle_line(t));
            assert(longer =~= head + seq![count_text(triangles@.len())] + Seq::new(
                (j + 1) as nat,
                |k: int| triangle_line(triangles@[k]),
            ));
            lines = longer;
        }
        j += 1;
    }
    out
}

/// Whether the bytes are a word: not empty, and without white space.
pub open spec fn is_word(s: Seq<u8>) -> bool {
    &&& s.len() >= 1
    &&& forall|i: int| 0 <= i < s.len() ==> !is_space(#[trigger] s[i])
}

/// Whether the bytes can stand on one line: none of them ends a line.
pub open spec fn is_plain(s: Seq<u8>) -> bool {
    forall|i: int| 0 <= i < s.len() ==> (#[trigger] s[i]) != NEWLINE && s[i] != CARRIAGE_RETURN
}

/// A run without white space that ends the line, or that white space
/// follows, is found whole.
proof fn lemma_token_run(line: Seq<u8>, from: int, end: int)
    requires
        0 <= from <= end <= line.len(),
        forall|i: int| from <= i < end ==> !is_space(#[trigger] line[i]),
        end == line.len() || is_space(line[end]),
    ensures
        token_end(line, from) == end,
    decreases end - from,
{
    if from < end {
        lemma_token_run(line, from + 1, end);
    }
}

/// The tokens from the beginning of a word on: the word, and the tokens
/// after it.
proof fn lemma_tokens_at_word(line: Seq<u8>, from: int, end: int)
    requires
        0 <= from < end <= line.len(),
        from == 0 || is_space(line[from - 1]),
        forall|i: int| from <= i < end ==> !is_space(#[trigger] line[i]),
        end == line.len() || is_space(line[end]),
    ensures
        tokens_from(line, from) == seq![line.subrange(from, end)] + tokens_from(line, end + 1),
{
    lemma_token_run(line, from, end);
    lemma_no_token_inside(line, from, end);
    assert(starts_token(line, from));
    if end < line.len() {
        assert(!starts_token(line, end));
    } else {
        assert(tokens_from(line, end) =~= tokens_from(line, end + 1));
    }
}

/// Three words with a space between are the three tokens of their line.
pub proof fn lemma_three_words(a: Seq<u8>, b: Seq<u8>, c: Seq<u8>)
    requires
        is_word(a),
        is_word(b),
        is_word(c),
    ensures
        tokens_of(a.push(SPACE) + b.push(SPACE) + c) == seq![a, b, c],
{
    let line = a.push(SPACE) + b.push(SPACE) + c;
    let second = a.len() as int + 1;
    let third = second + b.len() as int + 1;
    assert forall|i: int| 0 <= i < a.len() implies !is_space(#[trigger] line[i]) by {
        assert(line[i] == a[i]);
    }
    assert forall|i: int| second <= i < third - 1 implies !is_space(#[trigger] line[i]) by {
        assert(line[i] == b[i - second]);
    }
    assert forall|i: int| third <= i < line.len() implies !is_space(#[trigger] line[i]) by {
        assert(line[i] == c[i - third]);
    }
    assert(line[second - 1] == SPACE);
    assert(line[third - 1] == SPACE);
    lemma_tokens_at_word(line, 0, a.len() as int);
    lemma_tokens_at_word(line, second, third - 1);
    lemma_tokens_at_word(line, third, line.len() as int);
    assert(line.subrange(0, a.len() as int) =~= a);
    assert(line.subrange(second, third - 1) =~= b);
    assert(line.subrange(third, line.len() as int) =~= c);
    assert(tokens_from(line, line.len() as int + 1) =~= Seq::<Seq<u8>>::empty());
    assert(tokens_of(line) =~= seq![a, b, c]);
}

/// A run without newline that ends the text, or that a newline follows,
/// is found whole.
proof fn lemma_line_run(text: Seq<u8>, from: int, end: int)
    requires
        0 <= from <= end <= text.len(),
        forall|i: int| from <= i < end ==> (#[trigger] text[i]) != NEWLINE,
        end == text.len() || text[end] == NEWLINE,
    ensures
        line_end(text, from) == end,
    decreases end - from,
{
    if from < end {
        lemma_line_run(text, from + 1, end);
    }
}

/// The text of lines one after the other.
proof fn lemma_joined_concat(a: Seq<Seq<u8>>, b: Seq<Seq<u8>>)
    ensures
        joined(a + b) == joined(a) + joined(b),
    decreases b.len(),
{
    if b.len() == 0 {
        assert(a + b =~= a);
        assert(joined(a) + joined(b) =~= joined(a));
    } else {
        lemma_joined_concat(a, b.drop_last());
        assert((a + b).drop_last() =~= a + b.drop_last());
        assert((a + b).last() == b.last());
        assert(joined(a + b) =~= joined(a) + joined(b));
    }
}

/// In a text that is made of lines, the line `k` is the line `k` that it
/// was made of.
pub proof fn lemma_joined_line(lines: Seq<Seq<u8>>, k: nat)
    requires
        k < lines.len(),
        forall|j: int| 0 <= j < lines.len() ==> is_plain(#[trigger] lines[j]),
    ensures
        line_start(joined(lines), k) == joined(lines.take(k as int)).len(),
        has_line(joined(lines), k),
        line(joined(lines), k) == lines[k as int],
        after_line(joined(lines), line_start(joined(lines), k)) == joined(
            lines.take(k as int + 1),
        ).len(),
    decreases k,
{
    let text = joined(lines);
    let before = lines.take(k as int);
    let this = lines[k as int];
    let after = lines.skip(k as int + 1);
    assert(lines =~= before + seq![this] + after);
    lemma_joined_concat(before + seq![this], after);
    lemma_joined_concat(before, seq![this]);
    assert(seq![this].drop_last() =~= Seq::<Seq<u8>>::empty());
    assert(joined(Seq::<Seq<u8>>::empty()) =~= Seq::<u8>::empty());
    assert(seq![this].last() == this);
    assert(joined(seq![this]) =~= this.push(NEWLINE));
    assert(before + seq![this] =~= lines.take(k as int + 1));
    let from = joined(before).len() as int;
    let end = from + this.len();
    assert(text =~= joined(before) + this.push(NEWLINE) + joined(after));
    if k == 0 {
        assert(before =~= Seq::<Seq<u8>>::empty());
    } else {
        lemma_joined_line(lines, (k - 1) as nat);
        assert(lines.take((k - 1) as nat as int + 1) =~= before);
    }
    assert(line_start(text, k) == from);
    assert(is_plain(this));
    assert forall|i: int| from <= i < end implies (#[trigger] text[i]) != NEWLINE by {
        assert(text[i] == this[i - from]);
    }
    assert(text[end] == NEWLINE);
    lemma_line_run(text, from, end);
    if this.len() > 0 {
        assert(text[end - 1] == this[this.len() - 1]);
    }
    assert(text.subrange(from, end) =~= this);
}

/// The bytes of a word of a number are no white space and end no line.
proof fn lemma_number_word(s: Seq<u8>)
    requires
        is_number_word(s),
    ensures
        is_word(s),
        is_plain(s),
{
    assert forall|i: int| 0 <= i < s.len() implies !is_space(#[trigger] s[i]) by {
        assert(is_digit(s[i]) || s[i] == 45 || s[i] == 46);
    }
    assert forall|i: int| 0 <= i < s.len() implies (#[trigger] s[i]) != NEWLINE && s[i]
        != CARRIAGE_RETURN by {
        assert(is_digit(s[i]) || s[i] == 45 || s[i] == 46);
    }
}

/// Three plain words with a space between are a plain line.
proof fn lemma_plain_line(a: Seq<u8>, b: Seq<u8>, c: Seq<u8>)
    requires
        is_plain(a),
        is_plain(b),
        is_plain(c),
    ensures
        is_plain(a.push(SPACE) + b.push(SPACE) + c),
{
    let line = a.push(SPACE) + b.push(SPACE) + c;
    let second = a.len() as int + 1;
    let third = second + b.len() as int + 1;
    assert forall|i: int| 0 <= i < line.len() implies (#[trigger] line[i]) != NEWLINE && line[i]
        != CARRIAGE_RETURN by {
        if i < a.len() {
            assert(line[i] == a[i]);
        } else if second <= i < third - 1 {
            assert(line[i] == b[i - second]);
        } else if i >= third {
            assert(line[i] == c[i - third]);
        }
    }
}

/// The line of a point is plain and is read back.
pub proof fn lemma_point_round_trip(p: Vector3)
    ensures
        is_plain(point_line(p)),
        point_of(point_line(p)) == Some(p),
{
    let (a, b, c) = (
        coordinate_text(p.x as int),
        coordinate_text(p.y as int),
        coordinate_text(p.z as int),
    );
    lemma_coordinate_text_is_word(p.x as int);
    lemma_coordinate_text_is_word(p.y as int);
    lemma_coordinate_text_is_word(p.z as int);
    lemma_number_word(a);
    lemma_number_word(b);
    lemma_number_word(c);
    lemma_three_words(a, b, c);
    lemma_plain_line(a, b, c);
    lemma_coordinate_round_trip(p.x as int);
    lemma_coordinate_round_trip(p.y as int);
    lemma_coordinate_round_trip(p.z as int);
}

/// What is written for a count is a word of a number.
proof fn lemma_count_text_is_word(n: nat)
    ensures
        is_number_word(count_text(n)),
{
    lemma_count_text(n);
    assert forall|i: int| 0 <= i < count_text(n).len() implies is_digit(
        #[trigger] count_text(n)[i],
    ) || count_text(n)[i] == 45 || count_text(n)[i] == 46 by {}
}

/// The line of a triangle is plain and is read back.
pub proof fn lemma_triangle_round_trip(t: Triplet)
    ensures
        is_plain(triangle_line(t)),
        triangle_of(triangle_line(t)) == Some(t),
{
    let (a, b, c) = (count_text(t.0 as nat), count_text(t.1 as nat), count_text(t.2 as nat));
    lemma_count_text_is_word(t.0 as nat);
    lemma_count_text_is_word(t.1 as nat);
    lemma_count_text_is_word(t.2 as nat);
    lemma_number_word(a);
    lemma_number_word(b);
    lemma_number_word(c);
    lemma_three_words(a, b, c);
    lemma_plain_line(a, b, c);
    lemma_count_round_trip(t.0 as nat);
    lemma_count_round_trip(t.1 as nat);
    lemma_count_round_trip(t.2 as nat);
}

/// A mesh that is written is read back as it was: the points in their
/// order, and the triangles in theirs.
pub proof fn lemma_written_mesh_is_read(points: Seq<Vector3>, triangles: Seq<Triplet>)
    requires
        points.len() <= usize::MAX,
        triangles.len() <= usize::MAX,
    ensures
        mesh_of(mesh_text(points, triangles)) == Some((points, triangles)),
{
    let lines = mesh_lines(points, triangles);
    let text = mesh_text(points, triangles);
    let n = points.len();
    let m = triangles.len();
    assert(lines.len() == n + m + 2);
    assert(lines[0] == count_text(n));
    assert(lines[n as int + 1] == count_text(m));
    assert forall|j: int| 0 <= j < lines.len() implies is_plain(#[trigger] lines[j]) by {
        if j == 0 || j == n + 1 {
            lemma_count_text_is_word(if j == 0 {
                n
            } else {
                m
            });
            lemma_number_word(lines[j]);
        } else if j <= n {
            assert(lines[j] == point_line(points[j - 1]));
            lemma_point_round_trip(points[j - 1]);
        } else {
            assert(lines[j] == triangle_line(triangles[j - n - 2]));
            lemma_triangle_round_trip(triangles[j - n - 2]);
        }
    }
    lemma_joined_line(lines, 0);
    lemma_count_round_trip(n);
    lemma_joined_line(lines, n + 1);
    lemma_count_round_trip(m);
    assert forall|i: nat| i < n implies has_line(text, 1 + i) && point_of(
        #[trigger] line(text, 1 + i),
    ) == Some(points[i as int]) by {
        lemma_joined_line(lines, 1 + i);
        assert(lines[1 + i as int] == point_line(points[i as int]));
        lemma_point_round_trip(points[i as int]);
    }
    assert forall|j: nat| j < m implies has_line(text, n + 2 + j) && triangle_of(
        #[trigger] line(text, n + 2 + j),
    ) == Some(triangles[j as int]) by {
        lemma_joined_line(lines, n + 2 + j);
        assert(lines[n as int + 2 + j as int] == triangle_line(triangles[j as int]));
        lemma_triangle_round_trip(triangles[j as int]);
    }
    assert(points_written(text, 1, n));
    assert(triangles_written(text, n + 2, m));
    let read = mesh_of(text)->0;
    assert(read.0 =~= points) by {
        assert forall|i: int| 0 <= i < n implies read.0[i] == points[i] by {
            let _ = line(text, 1 + i as nat);
        }
    }
    assert(read.1 =~= triangles) by {
        assert forall|j: int| 0 <= j < m implies read.1[j] == triangles[j] by {
            let _ = line(text, n + 2 + j as nat);
        }
    }
}

} // verus!
