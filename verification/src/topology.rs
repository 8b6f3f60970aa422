//! What the output of `lscpu` is read as, in terms of what was written there.

use vstd::prelude::*;

use crate::error::{decimal_text, DIGITS};
use crate::numa_info::{
    contains, count_in, cpu_in, cpus_in, decimal, is_comment, is_digit, is_white, line_count, lines,
    node_in, number, occurs_at, rows, split, strip_cr, strip_plus, trim, trim_end, trim_start,
};

verus! {

// ---- numbers ----

/// The ten digits, in order.
pub open spec fn ten_digits() -> Seq<char> {
    seq!['0', '1', '2', '3', '4', '5', '6', '7', '8', '9']
}

/// The decimal text of `n`.
pub open spec fn written(n: int) -> Seq<char>
    decreases n,
{
    if n < 10 {
        seq![ten_digits()[n]]
    } else {
        written(n / 10).push(ten_digits()[n % 10])
    }
}

/// Each of `s` is one of the ten digits.
pub open spec fn all_digits(s: Seq<char>) -> bool {
    forall|i: int| 0 <= i < s.len() ==> ten_digits().contains(#[trigger] s[i])
}

proof fn lemma_digit(d: int)
    requires
        0 <= d < 10,
    ensures
        is_digit(ten_digits()[d]),
        ten_digits()[d] as int - '0' as int == d,
        ten_digits()[d] != '+',
        !is_white(ten_digits()[d]),
        ten_digits()[d] != ',',
        ten_digits()[d] != ':',
        ten_digits()[d] != '#',
        ten_digits().contains(ten_digits()[d]),
{
    let t = ten_digits();
    assert(t[0] == '0' && t[1] == '1' && t[2] == '2' && t[3] == '3' && t[4] == '4');
    assert(t[5] == '5' && t[6] == '6' && t[7] == '7' && t[8] == '8' && t[9] == '9');
}

proof fn lemma_is_digit(c: char)
    ensures
        is_digit(c) <==> ten_digits().contains(c),
{
    if is_digit(c) {
        let d = c as int - '0' as int;
        lemma_digit(d);
        assert(ten_digits()[d] == c);
    }
    if ten_digits().contains(c) {
        let d = choose|d: int| 0 <= d < ten_digits().len() && ten_digits()[d] == c;
        lemma_digit(d);
    }
}

proof fn lemma_written(n: int)
    requires
        n >= 0,
    ensures
        written(n).len() > 0,
        all_digits(written(n)),
        decimal(written(n)) == n,
        forall|i: int| 0 <= i < written(n).len() ==> is_digit(#[trigger] written(n)[i]),
        forall|i: int|
            0 <= i < written(n).len() ==> {
                &&& #[trigger] written(n)[i] != '+'
                &&& !is_white(written(n)[i])
                &&& written(n)[i] != ','
                &&& written(n)[i] != ':'
                &&& written(n)[i] != '#'
            },
    decreases n,
{
    let s = written(n);
    lemma_digit(n % 10);
    if n >= 10 {
        lemma_written(n / 10);
        assert(s.drop_last() =~= written(n / 10));
    } else {
        assert(s.drop_last() =~= Seq::<char>::empty());
        assert(decimal(Seq::<char>::empty()) == 0);
    }
}

/// The decimal text of a number is read as that number, with a plus sign before it or not,
/// unless the number exceeds a `usize`.
pub proof fn lemma_numbers_are_read(n: int)
    requires
        n >= 0,
    ensures
        number(written(n)) == if n <= usize::MAX {
            Some(n as usize)
        } else {
            None
        },
        number(seq!['+'] + written(n)) == number(written(n)),
{
    lemma_written(n);
    let s = written(n);
    assert(strip_plus(s) == s);
    assert(strip_plus(seq!['+'] + s) =~= s);
}

/// Zeros before a number make no difference.
pub proof fn lemma_zeros_are_skipped(s: Seq<char>)
    requires
        s.len() > 0,
        all_digits(s),
    ensures
        number(seq!['0'] + s) == number(s),
{
    assert forall|i: int| 0 <= i < s.len() implies is_digit(#[trigger] s[i]) by {
        lemma_is_digit(s[i]);
    }
    let z = seq!['0'] + s;
    assert(is_digit(s[0]) && s[0] != '+');
    assert(strip_plus(s) == s && strip_plus(z) == z);
    assert forall|i: int| 0 <= i < z.len() implies is_digit(#[trigger] z[i]) by {
        if i > 0 {
            assert(z[i] == s[i - 1]);
        }
    }
    lemma_decimal_zero(s);
}

proof fn lemma_decimal_zero(s: Seq<char>)
    requires
        forall|i: int| 0 <= i < s.len() ==> is_digit(#[trigger] s[i]),
    ensures
        decimal(seq!['0'] + s) == decimal(s),
    decreases s.len(),
{
    let z = seq!['0'] + s;
    if s.len() == 0 {
        assert(z.drop_last() =~= Seq::<char>::empty());
        assert(decimal(Seq::<char>::empty()) == 0);
    } else {
        assert(z.drop_last() =~= seq!['0'] + s.drop_last());
        lemma_decimal_zero(s.drop_last());
    }
}

/// What is read as a number is made of digits, at least one, with a plus sign before them or
/// not.
pub proof fn lemma_only_numbers_are_read(s: Seq<char>)
    ensures
        number(s) is Some ==> (s.len() > 0 && all_digits(s)) || (s.len() > 1 && s[0] == '+'
            && all_digits(s.skip(1))),
{
    let d = strip_plus(s);
    if number(s) is Some {
        assert forall|i: int| 0 <= i < d.len() implies ten_digits().contains(#[trigger] d[i]) by {
            assert(is_digit(d[i]));
            lemma_is_digit(d[i]);
        }
        if s[0] != '+' {
            assert(all_digits(s));
        } else {
            assert(all_digits(s.skip(1)));
        }
    }
}

/// What is written of a number in a message is its decimal text, and is read back as it.
pub proof fn lemma_messages_are_read(n: int)
    requires
        0 <= n <= usize::MAX,
    ensures
        decimal_text(n) == written(n),
        number(decimal_text(n)) == Some(n as usize),
    decreases n,
{
    reveal_strlit("0123456789");
    lemma_numbers_are_read(n);
    assert(DIGITS@ =~= ten_digits());
    if n >= 10 {
        lemma_messages_are_read(n / 10);
    }
    assert(decimal_text(n) =~= written(n));
}

// ---- white space ----

/// Each of `s` is white space.
pub open spec fn all_white(s: Seq<char>) -> bool {
    forall|i: int| 0 <= i < s.len() ==> is_white(#[trigger] s[i])
}

/// White space is these 25 characters.
pub proof fn lemma_white_space(c: char)
    ensures
        is_white(c) <==> seq![
            0x9int,
            0xa,
            0xb,
            0xc,
            0xd,
            0x20,
            0x85,
            0xa0,
            0x1680,
            0x2000,
            0x2001,
            0x2002,
            0x2003,
            0x2004,
            0x2005,
            0x2006,
            0x2007,
            0x2008,
            0x2009,
            0x200a,
            0x2028,
            0x2029,
            0x202f,
            0x205f,
            0x3000,
        ].contains(c as int),
{
    let t = seq![
        0x9int,
        0xa,
        0xb,
        0xc,
        0xd,
        0x20,
        0x85,
        0xa0,
        0x1680,
        0x2000,
        0x2001,
        0x2002,
        0x2003,
        0x2004,
        0x2005,
        0x2006,
        0x2007,
        0x2008,
        0x2009,
        0x200a,
        0x2028,
        0x2029,
        0x202f,
        0x205f,
        0x3000,
    ];
    assert(t[0] == 0x9 && t[1] == 0xa && t[2] == 0xb && t[3] == 0xc && t[4] == 0xd);
    assert(t[5] == 0x20 && t[6] == 0x85 && t[7] == 0xa0 && t[8] == 0x1680);
    assert(t[9] == 0x2000 && t[10] == 0x2001 && t[11] == 0x2002 && t[12] == 0x2003);
    assert(t[13] == 0x2004 && t[14] == 0x2005 && t[15] == 0x2006 && t[16] == 0x2007);
    assert(t[17] == 0x2008 && t[18] == 0x2009 && t[19] == 0x200a && t[20] == 0x2028);
    assert(t[21] == 0x2029 && t[22] == 0x202f && t[23] == 0x205f && t[24] == 0x3000);
}

/// A text that neither starts nor ends with white space is what is left of it when white
/// space is put around it and trimmed again.
pub proof fn lemma_trim_undoes(a: Seq<char>, s: Seq<char>, b: Seq<char>)
    requires
        all_white(a),
        all_white(b),
        s.len() > 0,
        !is_white(s[0]),
        !is_white(s.last()),
    ensures
        trim(a + s + b) == s,
{
    lemma_trim_front(a, s + b);
    assert(a + (s + b) =~= a + s + b);
    lemma_trim_back(s, b);
}

/// White space alone is trimmed to nothing.
pub proof fn lemma_trim_white(a: Seq<char>)
    requires
        all_white(a),
    ensures
        trim(a) == Seq::<char>::empty(),
    decreases a.len(),
{
    if a.len() > 0 {
        assert(is_white(a[0]));
        assert forall|i: int| 0 <= i < a.skip(1).len() implies is_white(
            #[trigger] a.skip(1)[i],
        ) by {
            assert(is_white(a[i + 1]));
        }
        lemma_trim_white(a.skip(1));
    } else {
        assert(a =~= Seq::<char>::empty());
    }
}

proof fn lemma_trim_front(a: Seq<char>, s: Seq<char>)
    requires
        all_white(a),
        s.len() > 0,
        !is_white(s[0]),
    ensures
        trim_start(a + s) == s,
    decreases a.len(),
{
    if a.len() > 0 {
        assert(is_white(a[0]));
        assert((a + s)[0] == a[0]);
        assert((a + s).skip(1) =~= a.skip(1) + s);
        assert forall|i: int| 0 <= i < a.skip(1).len() implies is_white(
            #[trigger] a.skip(1)[i],
        ) by {
            assert(is_white(a[i + 1]));
        }
        lemma_trim_front(a.skip(1), s);
    } else {
        assert(a + s =~= s);
    }
}

proof fn lemma_trim_back(s: Seq<char>, b: Seq<char>)
    requires
        all_white(b),
        s.len() > 0,
        !is_white(s.last()),
    ensures
        trim_end(s + b) == s,
    decreases b.len(),
{
    if b.len() > 0 {
        assert(is_white(b[b.len() - 1]));
        assert((s + b).last() == b.last());
        assert((s + b).drop_last() =~= s + b.drop_last());
        assert forall|i: int| 0 <= i < b.drop_last().len() implies is_white(
            #[trigger] b.drop_last()[i],
        ) by {
            assert(is_white(b[i]));
        }
        lemma_trim_back(s, b.drop_last());
    } else {
        assert(s + b =~= s);
    }
}

/// A number with white space around it is trimmed and read as that number.
pub proof fn lemma_trimmed_numbers_are_read(a: Seq<char>, n: usize, b: Seq<char>)
    requires
        all_white(a),
        all_white(b),
    ensures
        number(trim(a + written(n as int) + b)) == Some(n),
{
    lemma_written(n as int);
    lemma_trim_undoes(a, written(n as int), b);
    lemma_numbers_are_read(n as int);
}

/// A number with white space around it has no comma, no colon and is no comment.
proof fn lemma_only_number(a: Seq<char>, n: usize, b: Seq<char>)
    requires
        all_white(a),
        all_white(b),
    ensures
        !(a + written(n as int) + b).contains(','),
        !(a + written(n as int) + b).contains(':'),
        (a + written(n as int) + b).len() > 0,
        (a + written(n as int) + b)[0] != '#',
{
    lemma_written(n as int);
    let w = written(n as int);
    let s = a + w + b;
    assert forall|i: int| 0 <= i < s.len() implies #[trigger] s[i] != ',' && s[i] != ':' && s[i]
        != '#' by {
        if i < a.len() {
            assert(s[i] == a[i] && is_white(a[i]));
        } else if i < a.len() + w.len() {
            assert(s[i] == w[i - a.len()]);
        } else {
            assert(s[i] == b[i - a.len() - w.len()] && is_white(b[i - a.len() - w.len()]));
        }
    }
}

// ---- pieces and lines ----

/// A text without the separator is its own only piece.
proof fn lemma_split_one(s: Seq<char>, sep: char)
    requires
        !s.contains(sep),
    ensures
        split(s, sep) == seq![s],
    decreases s.len(),
{
    if s.len() > 0 {
        let front = s.drop_last();
        assert(s.contains(s.last())) by {
            assert(s[s.len() - 1] == s.last());
        }
        assert(!front.contains(sep)) by {
            if front.contains(sep) {
                let i = choose|i: int| 0 <= i < front.len() && front[i] == sep;
                assert(s[i] == sep);
            }
        }
        lemma_split_one(front, sep);
        assert(front.push(s.last()) =~= s);
        assert(split(s, sep) =~= seq![s]);
    } else {
        assert(s =~= Seq::<char>::empty());
        assert(split(s, sep) =~= seq![s]);
    }
}

proof fn lemma_split_some(s: Seq<char>, sep: char)
    ensures
        split(s, sep).len() > 0,
    decreases s.len(),
{
    if s.len() > 0 {
        lemma_split_some(s.drop_last(), sep);
    }
}

/// A text is cut into pieces at each separator: what stands before the first one is the
/// first piece, and what stands behind it is cut in the same way; a text without one is its
/// own only piece.
pub proof fn lemma_split_at_first(a: Seq<char>, sep: char, b: Seq<char>)
    requires
        !a.contains(sep),
    ensures
        split(a, sep) == seq![a],
        split(a + seq![sep] + b, sep) == seq![a] + split(b, sep),
    decreases b.len(),
{
    lemma_split_one(a, sep);
    let s = a + seq![sep] + b;
    if b.len() == 0 {
        assert(s.drop_last() =~= a);
        assert(b =~= Seq::<char>::empty());
        assert(split(s, sep) =~= seq![a] + split(b, sep));
    } else {
        let front = b.drop_last();
        assert(s.drop_last() =~= a + seq![sep] + front);
        assert(s.last() == b.last());
        lemma_split_at_first(a, sep, front);
        lemma_split_some(front, sep);
        let f = split(front, sep);
        let g = split(s.drop_last(), sep);
        assert(g == seq![a] + f);
        assert(g.last() == f.last());
        assert(g.drop_last() =~= seq![a] + f.drop_last());
        assert(split(s, sep) =~= seq![a] + split(b, sep));
    }
}

/// A text is cut into lines at each line feed: what stands before the first one, without a
/// carriage return at its end, is the first line; what stands behind it is cut in the same
/// way. A text without a line feed is one line as it is, or none if it is empty.
pub proof fn lemma_lines(a: Seq<char>, b: Seq<char>)
    requires
        !a.contains('\n'),
    ensures
        lines(a) == if a.len() == 0 {
            Seq::<Seq<char>>::empty()
        } else {
            seq![a]
        },
        lines(a + seq!['\n'] + b) == seq![
            if a.len() > 0 && a[a.len() - 1] == '\r' {
                a.take(a.len() - 1)
            } else {
                a
            },
        ] + lines(b),
{
    lemma_split_at_first(a, '\n', b);
    lemma_split_some(b, '\n');
    let strip = |p: Seq<char>| strip_cr(p);
    let one = split(a, '\n');
    assert(one.drop_last().map_values(strip) =~= Seq::<Seq<char>>::empty());
    assert(lines(a) =~= if a.len() == 0 {
        Seq::<Seq<char>>::empty()
    } else {
        seq![a]
    });
    let rest = split(b, '\n');
    let all = seq![a] + rest;
    assert(all.last() == rest.last());
    assert(all.drop_last() =~= seq![a] + rest.drop_last());
    assert(all.drop_last().map_values(strip) =~= seq![strip_cr(a)] + rest.drop_last().map_values(
        strip,
    ));
    assert(a.len() > 0 ==> a.drop_last() =~= a.take(a.len() - 1));
    assert(lines(a + seq!['\n'] + b) =~= seq![strip_cr(a)] + lines(b));
}

/// A text occurs in another if and only if that one has it between two texts.
pub proof fn lemma_contains(s: Seq<char>, a: Seq<char>, p: Seq<char>, b: Seq<char>)
    ensures
        contains(a + p + b, p),
        contains(s, p) ==> exists|x: Seq<char>, y: Seq<char>| s == #[trigger] (x + p + y),
{
    assert((a + p + b).subrange(a.len() as int, (a.len() + p.len()) as int) =~= p);
    assert(occurs_at(a + p + b, p, a.len() as int));
    if contains(s, p) {
        let i = choose|i: int| #[trigger] occurs_at(s, p, i);
        let x = s.take(i);
        let y = s.skip(i + p.len());
        assert(s =~= x + p + y);
    }
}

// ---- the number of nodes ----

/// A line with the label gives the number between its first colon and its second one, or
/// its end; a line without the label or without a colon gives none.
pub proof fn lemma_line_count(x: Seq<char>, y: Seq<char>, z: Seq<char>)
    requires
        !x.contains(':'),
        !y.contains(':'),
    ensures
        line_count(x) is None,
        line_count(x + seq![':'] + y) == if contains(x + seq![':'] + y, "NUMA node(s)"@) {
            number(trim(y))
        } else {
            None
        },
        line_count(x + seq![':'] + (y + seq![':'] + z)) == if contains(
            x + seq![':'] + (y + seq![':'] + z),
            "NUMA node(s)"@,
        ) {
            number(trim(y))
        } else {
            None
        },
{
    lemma_split_at_first(x, ':', y);
    lemma_split_at_first(y, ':', z);
    lemma_split_at_first(x, ':', y + seq![':'] + z);
    let two = split(x + seq![':'] + y, ':');
    assert(two[1] == split(y, ':')[0]);
    let more = split(x + seq![':'] + (y + seq![':'] + z), ':');
    assert(more[1] == split(y + seq![':'] + z, ':')[0]);
}

proof fn lemma_label()
    ensures
        !"NUMA node(s)"@.contains(':'),
{
    reveal_strlit("NUMA node(s)");
}

proof fn lemma_line_count_of(x: Seq<char>, y: Seq<char>)
    requires
        !x.contains(':'),
        !y.contains(':'),
        contains(x + seq![':'] + y, "NUMA node(s)"@),
    ensures
        line_count(x + seq![':'] + y) == number(trim(y)),
{
    lemma_line_count(x, y, Seq::empty());
}

/// The line that `lscpu` writes of `n` nodes gives `n`, whatever white space stands around
/// the number.
pub proof fn lemma_node_count_is_read(a: Seq<char>, n: usize, b: Seq<char>)
    requires
        all_white(a),
        all_white(b),
    ensures
        line_count("NUMA node(s)"@ + seq![':'] + (a + written(n as int) + b)) == Some(n),
{
    let label = "NUMA node(s)"@;
    let y = a + written(n as int) + b;
    lemma_label();
    lemma_only_number(a, n, b);
    let line = label + seq![':'] + y;
    lemma_trimmed_numbers_are_read(a, n, b);
    assert(contains(line, label)) by {
        assert(line.subrange(0, label.len() as int) =~= label);
        assert(occurs_at(line, label, 0));
    }
    lemma_line_count_of(label, y);
}

/// The number of nodes is what the first line that gives one gives, and 1 where none does.
pub proof fn lemma_first_count_counts(
    before: Seq<Seq<char>>,
    line: Seq<char>,
    after: Seq<Seq<char>>,
)
    requires
        forall|i: int| 0 <= i < before.len() ==> line_count(#[trigger] before[i]) is None,
    ensures
        count_in(before) == 1,
        line_count(line) is Some ==> count_in(before + seq![line] + after) == line_count(line)->0,
    decreases before.len(),
{
    let all = before + seq![line] + after;
    if before.len() > 0 {
        let rest = before.skip(1);
        assert(line_count(before[0]) is None);
        assert forall|i: int| 0 <= i < rest.len() implies line_count(
            #[trigger] rest[i],
        ) is None by {
            assert(line_count(before[i + 1]) is None);
        }
        lemma_first_count_counts(rest, line, after);
        assert(all.skip(1) =~= rest + seq![line] + after);
        assert(all[0] == before[0]);
    } else {
        assert(all[0] == line);
    }
}

// ---- the nodes of CPUs ----

/// Comments are left out of the rows, and every other line is one row, in order.
pub proof fn lemma_rows(before: Seq<Seq<char>>, line: Seq<char>, after: Seq<Seq<char>>)
    ensures
        rows(Seq::<Seq<char>>::empty()) == Seq::<Seq<char>>::empty(),
        rows(before + seq![line] + after) == if line.len() > 0 && line[0] == '#' {
            rows(before) + rows(after)
        } else {
            rows(before) + seq![line] + rows(after)
        },
    decreases after.len(),
{
    let all = before + seq![line] + after;
    if after.len() == 0 {
        assert(all.drop_last() =~= before);
        assert(all.last() == line);
        assert(after =~= Seq::<Seq<char>>::empty());
        assert(rows(after) =~= Seq::<Seq<char>>::empty());
        assert(rows(before) + rows(after) =~= rows(before));
        assert(rows(before) + seq![line] + rows(after) =~= rows(before).push(line));
    } else {
        let front = after.drop_last();
        lemma_rows(before, line, front);
        assert(all.drop_last() =~= before + seq![line] + front);
        assert(all.last() == after.last());
        let last = after.last();
        if !is_comment(last) {
            assert((rows(before) + rows(front)).push(last) =~= rows(before) + rows(front).push(
                last,
            ));
            assert((rows(before) + seq![line] + rows(front)).push(last) =~= rows(before)
                + seq![line] + rows(front).push(last));
        }
    }
}

/// The row of a CPU with the number of its node, whatever white space stands around it,
/// gives that node; a CPU without a row, or with one that is no number, is on node 0.
pub proof fn lemma_node_is_read(
    table: Seq<Seq<char>>,
    cpu_id: usize,
    a: Seq<char>,
    n: usize,
    b: Seq<char>,
)
    requires
        all_white(a),
        all_white(b),
    ensures
        cpu_id < table.len() && table[cpu_id as int] == a + written(n as int) + b ==> node_in(
            table,
            cpu_id,
        ) == n,
        cpu_id >= table.len() ==> node_in(table, cpu_id) == 0,
        cpu_id < table.len() && number(trim(table[cpu_id as int])) is None ==> node_in(
            table,
            cpu_id,
        ) == 0,
{
    lemma_trimmed_numbers_are_read(a, n, b);
}

/// The CPUs of lines are those of the first ones and then those of the others.
pub proof fn lemma_cpus_in_order(first: Seq<Seq<char>>, others: Seq<Seq<char>>, node: usize)
    ensures
        cpus_in(Seq::<Seq<char>>::empty(), node) == Seq::<usize>::empty(),
        cpus_in(first + others, node) == cpus_in(first, node) + cpus_in(others, node),
    decreases others.len(),
{
    if others.len() == 0 {
        assert(first + others =~= first);
        assert(others =~= Seq::<Seq<char>>::empty());
        assert(cpus_in(first, node) + cpus_in(others, node) =~= cpus_in(first, node));
    } else {
        let front = others.drop_last();
        lemma_cpus_in_order(first, front, node);
        assert((first + others).drop_last() =~= first + front);
        assert((first + others).last() == others.last());
        assert(cpus_in(first + others, node) =~= cpus_in(first, node) + cpus_in(others, node));
    }
}

proof fn lemma_single_line(line: Seq<char>, node: usize)
    ensures
        cpus_in(seq![line], node) == match cpu_in(line, node) {
            Some(cpu) => seq![cpu],
            None => Seq::<usize>::empty(),
        },
{
    assert(seq![line].drop_last() =~= Seq::<Seq<char>>::empty());
    assert(seq![line].last() == line);
    assert(cpus_in(Seq::<Seq<char>>::empty(), node) =~= Seq::<usize>::empty());
    match cpu_in(line, node) {
        Some(cpu) => {
            assert(Seq::<usize>::empty().push(cpu) =~= seq![cpu]);
        },
        None => {},
    }
}

/// A line with a CPU and a node, a comma between them and white space around each or not,
/// puts that CPU on that node and on no other.
pub proof fn lemma_cpu_is_read(
    a: Seq<char>,
    cpu: usize,
    b: Seq<char>,
    c: Seq<char>,
    m: usize,
    d: Seq<char>,
    node: usize,
)
    requires
        all_white(a),
        all_white(b),
        all_white(c),
        all_white(d),
    ensures
        cpus_in(
            seq![(a + written(cpu as int) + b) + seq![','] + (c + written(m as int) + d)],
            node,
        ) == if m == node {
            seq![cpu]
        } else {
            Seq::<usize>::empty()
        },
{
    let x = a + written(cpu as int) + b;
    let y = c + written(m as int) + d;
    let line = x + seq![','] + y;
    lemma_only_number(a, cpu, b);
    lemma_only_number(c, m, d);
    lemma_split_at_first(x, ',', y);
    lemma_split_at_first(y, ',', y);
    lemma_trimmed_numbers_are_read(a, cpu, b);
    lemma_trimmed_numbers_are_read(c, m, d);
    assert(line[0] == x[0]);
    let parts = split(line, ',');
    assert(parts =~= seq![x, y]);
    assert(cpu_in(line, node) == if m == node {
        Some(cpu)
    } else {
        None
    });
    lemma_single_line(line, node);
}

/// A comment, a line without a comma, and a line with more than one put no CPU anywhere.
pub proof fn lemma_other_lines_are_skipped(
    line: Seq<char>,
    x: Seq<char>,
    y: Seq<char>,
    z: Seq<char>,
    node: usize,
)
    requires
        !x.contains(','),
        !y.contains(','),
    ensures
        line.len() > 0 && line[0] == '#' ==> cpus_in(seq![line], node) == Seq::<usize>::empty(),
        cpus_in(seq![x], node) == Seq::<usize>::empty(),
        cpus_in(seq![x + seq![','] + (y + seq![','] + z)], node) == Seq::<usize>::empty(),
{
    let many = x + seq![','] + (y + seq![','] + z);
    lemma_split_at_first(x, ',', y + seq![','] + z);
    lemma_split_at_first(y, ',', z);
    lemma_split_some(z, ',');
    assert(split(many, ',').len() > 2);
    lemma_single_line(line, node);
    lemma_single_line(x, node);
    lemma_single_line(many, node);
}

} // verus!
