//! What `lscpu` says of NUMA nodes.

use vstd::prelude::*;

verus! {

/// Text that stands in the line with the number of nodes.
pub const NODE_COUNT_LABEL: &'static str = "NUMA node(s)";

/// The pieces of `s` between the occurrences of `sep`.
pub open spec fn split(s: Seq<char>, sep: char) -> Seq<Seq<char>>
    decreases s.len(),
{
    if s.len() == 0 {
        seq![Seq::empty()]
    } else {
        let front = split(s.drop_last(), sep);
        if s.last() == sep {
            front.push(Seq::empty())
        } else {
            front.drop_last().push(front.last().push(s.last()))
        }
    }
}

/// `s` without a carriage return at its end.
pub open spec fn strip_cr(s: Seq<char>) -> Seq<char> {
    if s.len() > 0 && s.last() == '\r' {
        s.drop_last()
    } else {
        s
    }
}

/// The lines of `s`. A line ends with a line feed, before which one carriage return
/// belongs to the line's end; the last line need not end.
pub open spec fn lines(s: Seq<char>) -> Seq<Seq<char>> {
    let pieces = split(s, '\n');
    let ended = pieces.drop_last().map_values(|p: Seq<char>| strip_cr(p));
    if pieces.last().len() == 0 {
        ended
    } else {
        ended.push(pieces.last())
    }
}

/// The Unicode property `White_Space`.
pub open spec fn is_white(c: char) -> bool {
    ||| '\u{9}' <= c <= '\u{d}'
    ||| c == '\u{20}'
    ||| c == '\u{85}'
    ||| c == '\u{a0}'
    ||| c == '\u{1680}'
    ||| '\u{2000}' <= c <= '\u{200a}'
    ||| c == '\u{2028}'
    ||| c == '\u{2029}'
    ||| c == '\u{202f}'
    ||| c == '\u{205f}'
    ||| c == '\u{3000}'
}

/// `s` without the white space at its start.
pub open spec fn trim_start(s: Seq<char>) -> Seq<char>
    decreases s.len(),
{
    if s.len() > 0 && is_white(s[0]) {
        trim_start(s.skip(1))
    } else {
        s
    }
}

/// `s` without the white space at its end.
pub open spec fn trim_end(s: Seq<char>) -> Seq<char>
    decreases s.len(),
{
    if s.len() > 0 && is_white(s.last()) {
        trim_end(s.drop_last())
    } else {
        s
    }
}

/// `s` without the white space around it.
pub open spec fn trim(s: Seq<char>) -> Seq<char> {
    trim_end(trim_start(s))
}

/// `p` occurs in `s`.
pub open spec fn contains(s: Seq<char>, p: Seq<char>) -> bool {
    exists|i: int| #[trigger] occurs_at(s, p, i)
}

pub open spec fn occurs_at(s: Seq<char>, p: Seq<char>, i: int) -> bool {
    0 <= i && i + p.len() <= s.len() && s.subrange(i, i + p.len()) == p
}

pub open spec fn is_digit(c: char) -> bool {
    '0' <= c <= '9'
}

/// The number that decimal digits write.
pub open spec fn decimal(s: Seq<char>) -> nat
    decreases s.len(),
{
    if s.len() == 0 {
        0
    } else {
        (decimal(s.drop_last()) * 10 + (s.last() as int - '0' as int)) as nat
    }
}

/// `s` without a plus sign at its start.
pub open spec fn strip_plus(s: Seq<char>) -> Seq<char> {
    if s.len() > 0 && s[0] == '+' {
        s.skip(1)
    } else {
        s
    }
}

/// The number that `s` writes: digits, with a plus sign before them or not, that do not
/// exceed a `usize`.
pub open spec fn number(s: Seq<char>) -> Option<usize> {
    let d = strip_plus(s);
    if d.len() > 0 && (forall|i: int| 0 <= i < d.len() ==> is_digit(#[trigger] d[i])) && decimal(d)
        <= usize::MAX {
        Some(decimal(d) as usize)
    } else {
        None
    }
}

/// The number of nodes that a line gives: the number behind its first colon, if the
/// line has the label.
pub open spec fn line_count(line: Seq<char>) -> Option<usize> {
    let pieces = split(line, ':');
    if contains(line, NODE_COUNT_LABEL@) && pieces.len() > 1 {
        number(trim(pieces[1]))
    } else {
        None
    }
}

/// What the first of `lines` that gives a number of nodes gives; 1 if none does.
pub open spec fn count_in(lines: Seq<Seq<char>>) -> usize
    decreases lines.len(),
{
    if lines.len() == 0 {
        1
    } else {
        match line_count(lines[0]) {
            Some(n) => n,
            None => count_in(lines.skip(1)),
        }
    }
}

/// The line is a comment.
pub open spec fn is_comment(line: Seq<char>) -> bool {
    line.len() > 0 && line[0] == '#'
}

/// The lines that are no comments: one for each CPU, in order.
pub open spec fn rows(lines: Seq<Seq<char>>) -> Seq<Seq<char>>
    decreases lines.len(),
{
    if lines.len() == 0 {
        Seq::empty()
    } else if is_comment(lines.last()) {
        rows(lines.drop_last())
    } else {
        rows(lines.drop_last()).push(lines.last())
    }
}

/// The node that the row of the CPU `cpu_id` gives; 0 if there is no such row, or it is
/// no number.
pub open spec fn node_in(rows: Seq<Seq<char>>, cpu_id: usize) -> usize {
    if cpu_id < rows.len() {
        match number(trim(rows[cpu_id as int])) {
            Some(node) => node,
            None => 0,
        }
    } else {
        0
    }
}

/// The rows of the first `n` lines are the first rows of all lines.
proof fn lemma_rows_prefix(lines: Seq<Seq<char>>, n: int)
    requires
        0 <= n <= lines.len(),
    ensures
        rows(lines.take(n)).len() <= rows(lines).len(),
        rows(lines.take(n)) == rows(lines).take(rows(lines.take(n)).len() as int),
    decreases lines.len(),
{
    if n < lines.len() {
        lemma_rows_prefix(lines.drop_last(), n);
        assert(lines.drop_last().take(n) =~= lines.take(n));
        assert(rows(lines).take(rows(lines.take(n)).len() as int) =~= rows(
            lines.drop_last(),
        ).take(rows(lines.take(n)).len() as int));
    } else {
        assert(lines.take(n) =~= lines);
        assert(rows(lines).take(rows(lines).len() as int) =~= rows(lines));
    }
}

/// The CPU that a line puts on the node `node`: the line is no comment, and has a CPU
/// and a node with a comma between them.
pub open spec fn cpu_in(line: Seq<char>, node: usize) -> Option<usize> {
    let parts = split(line, ',');
    if !is_comment(line) && parts.len() == 2 && number(trim(parts[1])) == Some(node) {
        number(trim(parts[0]))
    } else {
        None
    }
}

/// The CPUs that `lines` put on the node `node`, line by line.
pub open spec fn cpus_in(lines: Seq<Seq<char>>, node: usize) -> Seq<usize>
    decreases lines.len(),
{
    if lines.len() == 0 {
        Seq::empty()
    } else {
        match cpu_in(lines.last(), node) {
            Some(cpu) => cpus_in(lines.drop_last(), node).push(cpu),
            None => cpus_in(lines.drop_last(), node),
        }
    }
}

/// The characters of the texts in `v`.
pub open spec fn texts(v: Seq<Vec<char>>) -> Seq<Seq<char>> {
    v.map_values(|t: Vec<char>| t@)
}

fn chars_of(s: &str) -> (v: Vec<char>)
    ensures
        v@ == s@,
{
    let mut v: Vec<char> = Vec::new();
    for c in it: s.chars()
        invariant
            v@ == s@.take(it.index() as int),
            it.seq() == s@,
    {
        v.push(c);
        assert(v@ =~= s@.take(it.index() + 1));
    }
    assert(v@ =~= s@);
    v
}

fn split_at(s: &[char], sep: char) -> (v: Vec<Vec<char>>)
    ensures
        texts(v@) == split(s@, sep),
        v@.len() > 0,
{
    let mut v: Vec<Vec<char>> = Vec::new();
    let mut piece: Vec<char> = Vec::new();
    let mut i: usize = 0;
    assert(texts(v@).push(piece@) =~= split(s@.take(0), sep));
    while i < s.len()
        invariant
            i <= s@.len(),
            texts(v@).push(piece@) == split(s@.take(i as int), sep),
        decreases s@.len() - i,
    {
        let c: char = s[i];
        let ghost front = split(s@.take(i as int), sep);
        proof {
            assert(s@.take(i + 1).drop_last() =~= s@.take(i as int));
            assert(front.drop_last() =~= texts(v@));
        }
        if c == sep {
            v.push(piece);
            assert(texts(v@) =~= front);
            piece = Vec::new();
            assert(piece@ =~= Seq::<char>::empty());
        } else {
            piece.push(c);
        }
        i += 1;
    }
    assert(s@.take(i as int) =~= s@);
    v.push(piece);
    assert(texts(v@) =~= split(s@, sep));
    v
}

fn lines_of(s: &str) -> (v: Vec<Vec<char>>)
    ensures
        texts(v@) == lines(s@),
{
    let chars = chars_of(s);
    let mut pieces = split_at(chars.as_slice(), '\n');
    let ghost all = texts(pieces@);
    let last = match pieces.pop() {
        Some(p) => p,
        None => Vec::new(),
    };
    assert(texts(pieces@) =~= all.drop_last());
    assert(last@ == all.last());
    let ghost ended = all.drop_last().map_values(|p: Seq<char>| strip_cr(p));
    let mut v: Vec<Vec<char>> = Vec::new();
    let mut i: usize = 0;
    while i < pieces.len()
        invariant
            i <= pieces@.len(),
            texts(pieces@).len() == ended.len(),
            ended == texts(pieces@).map_values(|p: Seq<char>| strip_cr(p)),
            texts(v@) =~= ended.take(i as int),
        decreases pieces@.len() - i,
    {
        let mut line = clone_text(pieces[i].as_slice());
        let n: usize = line.len();
        if n > 0 && line[n - 1] == '\r' {
            line.pop();
        }
        assert(line@ =~= strip_cr(texts(pieces@)[i as int]));
        assert(ended[i as int] == line@);
        let ghost before = texts(v@);
        v.push(line);
        assert(texts(v@) =~= before.push(ended[i as int]));
        i += 1;
    }
    assert(texts(v@) =~= ended);
    if last.len() > 0 {
        v.push(last);
        assert(texts(v@) =~= ended.push(last@));
    }
    v
}

fn clone_text(s: &[char]) -> (v: Vec<char>)
    ensures
        v@ == s@,
{
    let mut v: Vec<char> = Vec::new();
    let mut i: usize = 0;
    while i < s.len()
        invariant
            i <= s@.len(),
            v@ =~= s@.take(i as int),
        decreases s@.len() - i,
    {
        v.push(s[i]);
        i += 1;
    }
    assert(v@ =~= s@);
    v
}

fn white(c: char) -> (r: bool)
    ensures
        r == is_white(c),
{
    ('\u{9}' <= c && c <= '\u{d}') || c == '\u{20}' || c == '\u{85}' || c == '\u{a0}' || c
        == '\u{1680}' || ('\u{2000}' <= c && c <= '\u{200a}') || c == '\u{2028}' || c == '\u{2029}'
        || c == '\u{202f}' || c == '\u{205f}' || c == '\u{3000}'
}

fn trimmed(s: &[char]) -> (v: Vec<char>)
    ensures
        v@ == trim(s@),
{
    let mut start: usize = 0;
    assert(s@.skip(0) =~= s@);
    while start < s.len() && white(s[start])
        invariant
            start <= s@.len(),
            trim_start(s@) == trim_start(s@.skip(start as int)),
        decreases s@.len() - start,
    {
        assert(s@.skip(start as int).skip(1) =~= s@.skip(start + 1));
        start += 1;
    }
    let ghost rest = s@.skip(start as int);
    assert(trim_start(s@) == rest);
    let mut end: usize = s.len();
    assert(rest.take(end - start) =~= rest);
    while end > start && white(s[end - 1])
        invariant
            start <= end <= s@.len(),
            rest == s@.skip(start as int),
            trim_end(rest) == trim_end(rest.take(end - start)),
        decreases end,
    {
        assert(rest.take(end - start).drop_last() =~= rest.take(end - 1 - start));
        assert(rest.take(end - start).last() == s@[end - 1]);
        end -= 1;
    }
    let part: &[char] = vstd::slice::slice_subrange(s, start, end);
    assert(part@ =~= rest.take(end - start));
    if end > start {
        assert(rest.take(end - start).last() == s@[end - 1]);
    }
    clone_text(part)
}

fn has_text(s: &[char], p: &[char]) -> (r: bool)
    ensures
        r == contains(s@, p@),
{
    if p.len() > s.len() {
        assert forall|k: int| !occurs_at(s@, p@, k) by {}
        return false;
    }
    let n: usize = s.len();
    let last: usize = n - p.len();
    let mut i: usize = 0;
    while i <= last
        invariant
            n == s@.len(),
            last == n - p@.len(),
            i <= last + 1,
            forall|k: int| 0 <= k < i ==> !occurs_at(s@, p@, k),
        decreases last + 1 - i,
    {
        let mut j: usize = 0;
        while j < p.len() && s[i + j] == p[j]
            invariant
                i <= last,
                n == s@.len(),
                last == n - p@.len(),
                j <= p@.len(),
                forall|k: int| 0 <= k < j ==> s@[i + k] == p@[k],
            decreases p@.len() - j,
        {
            j += 1;
        }
        if j == p.len() {
            assert(s@.subrange(i as int, i + p@.len()) =~= p@);
            assert(occurs_at(s@, p@, i as int));
            return true;
        }
        assert(!occurs_at(s@, p@, i as int)) by {
            if occurs_at(s@, p@, i as int) {
                assert(s@.subrange(i as int, i + p@.len())[j as int] == p@[j as int]);
            }
        }
        i += 1;
    }
    false
}

proof fn lemma_decimal_grows(s: Seq<char>, n: int)
    requires
        0 <= n <= s.len(),
        forall|i: int| 0 <= i < s.len() ==> is_digit(#[trigger] s[i]),
    ensures
        decimal(s) >= decimal(s.take(n)),
    decreases s.len(),
{
    if n < s.len() {
        lemma_decimal_grows(s.drop_last(), n);
        assert(s.drop_last().take(n) =~= s.take(n));
        assert(is_digit(s[s.len() - 1]));
    } else {
        assert(s.take(n) =~= s);
    }
}

fn parse_number(s: &[char]) -> (r: Option<usize>)
    ensures
        r == number(s@),
{
    let ghost d = strip_plus(s@);
    let start: usize = if s.len() > 0 && s[0] == '+' {
        1
    } else {
        0
    };
    assert(d =~= s@.skip(start as int));
    if s.len() == start {
        return None;
    }
    let mut acc: usize = 0;
    let mut i: usize = start;
    while i < s.len()
        invariant
            start <= i <= s@.len(),
            start < s@.len(),
            d == strip_plus(s@),
            d == s@.skip(start as int),
            acc == decimal(d.take(i - start)),
            forall|k: int| 0 <= k < i - start ==> is_digit(#[trigger] d[k]),
        decreases s@.len() - i,
    {
        let c: char = s[i];
        assert(d[i - start] == c);
        if !('0' <= c && c <= '9') {
            return None;
        }
        let digit: usize = (c as u32 - '0' as u32) as usize;
        proof {
            assert(d.take(i + 1 - start).drop_last() =~= d.take(i - start));
            assert(decimal(d.take(i + 1 - start)) == acc * 10 + digit);
        }
        if acc > (usize::MAX - digit) / 10 {
            proof {
                if forall|k: int| 0 <= k < d.len() ==> is_digit(#[trigger] d[k]) {
                    lemma_decimal_grows(d, i + 1 - start);
                }
            }
            return None;
        }
        acc = acc * 10 + digit;
        i += 1;
    }
    assert(d.take(i - start) =~= d);
    Some(acc)
}

fn comment(line: &[char]) -> (r: bool)
    ensures
        r == is_comment(line@),
{
    line.len() > 0 && line[0] == '#'
}

/// The number of NUMA nodes, from the output of `lscpu`.
pub fn get_node_count(output: &str) -> (n: usize)
    ensures
        n == count_in(lines(output@)),
{
    let all = lines_of(output);
    let label = chars_of(NODE_COUNT_LABEL);
    let mut i: usize = 0;
    assert(texts(all@).skip(0) =~= texts(all@));
    while i < all.len()
        invariant
            i <= all@.len(),
            label@ == NODE_COUNT_LABEL@,
            texts(all@) == lines(output@),
            count_in(lines(output@)) == count_in(texts(all@).skip(i as int)),
        decreases all@.len() - i,
    {
        let line: &[char] = all[i].as_slice();
        assert(texts(all@).skip(i as int)[0] == line@);
        assert(texts(all@).skip(i as int).skip(1) =~= texts(all@).skip(i + 1));
        if has_text(line, label.as_slice()) {
            let pieces = split_at(line, ':');
            assert(texts(pieces@).len() == pieces@.len());
            if pieces.len() > 1 {
                assert(texts(pieces@)[1] == pieces@[1]@);
                let piece = trimmed(pieces[1].as_slice());
                match parse_number(piece.as_slice()) {
                    Some(n) => {
                        return n;
                    },
                    None => {},
                }
            }
        }
        i += 1;
    }
    1
}

/// The NUMA node of a CPU, from the output of `lscpu -p=NODE`.
pub fn get_numa_node_for_cpu(output: &str, cpu_id: usize) -> (node: usize)
    ensures
        node == node_in(rows(lines(output@)), cpu_id),
{
    let all = lines_of(output);
    let mut row: usize = 0;
    let mut i: usize = 0;
    while i < all.len()
        invariant
            row <= i <= all@.len(),
            row <= cpu_id,
            texts(all@) == lines(output@),
            row == rows(texts(all@).take(i as int)).len(),
        decreases all@.len() - i,
    {
        let line: &[char] = all[i].as_slice();
        proof {
            let t = texts(all@).take(i + 1);
            assert(t.last() == line@);
            assert(t.drop_last() =~= texts(all@).take(i as int));
            lemma_rows_prefix(texts(all@), i + 1);
        }
        if !comment(line) {
            if row == cpu_id {
                assert(rows(texts(all@).take(i + 1))[row as int] == line@);
                let text = trimmed(line);
                return match parse_number(text.as_slice()) {
                    Some(node) => node,
                    None => 0,
                };
            }
            row += 1;
        }
        i += 1;
    }
    assert(texts(all@).take(i as int) =~= texts(all@));
    0
}

/// The CPUs of a NUMA node, from the output of `lscpu -p=CPU,NODE`.
pub fn cpus_of_node(output: &str, node: usize) -> (cpus: Vec<usize>)
    ensures
        cpus@ == cpus_in(lines(output@), node),
{
    let all = lines_of(output);
    let mut cpus: Vec<usize> = Vec::new();
    let mut i: usize = 0;
    while i < all.len()
        invariant
            i <= all@.len(),
            texts(all@) == lines(output@),
            cpus@ =~= cpus_in(texts(all@).take(i as int), node),
        decreases all@.len() - i,
    {
        let line: &[char] = all[i].as_slice();
        proof {
            let t = texts(all@).take(i + 1);
            assert(t.last() == line@);
            assert(t.drop_last() =~= texts(all@).take(i as int));
        }
        if !comment(line) {
            let parts = split_at(line, ',');
            assert(texts(parts@).len() == parts@.len());
            if parts.len() == 2 {
                assert(texts(parts@)[0] == parts@[0]@ && texts(parts@)[1] == parts@[1]@);
                let cpu_text = trimmed(parts[0].as_slice());
                let node_text = trimmed(parts[1].as_slice());
                match (parse_number(cpu_text.as_slice()), parse_number(node_text.as_slice())) {
                    (Some(cpu), Some(numa_node)) => {
                        if numa_node == node {
                            cpus.push(cpu);
                        }
                    },
                    _ => {},
                }
            }
        }
        i += 1;
    }
    assert(texts(all@).take(i as int) =~= texts(all@));
    cpus
}

} // verus!
