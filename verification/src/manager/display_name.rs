use vstd::prelude::*;

use vstd::std_specs::iter::IteratorSpec;

verus! {

broadcast use vstd::string::group_string_axioms;

/// The characters of `text`, in order.
fn chars_of(text: &str) -> (chars: Vec<char>)
    ensures
        chars@ == text@,
{
    let mut chars: Vec<char> = Vec::new();
    for c in it: text.chars()
        invariant
            chars@ == it.seq().take(it.index() as int),
    {
        chars.push(c);
    }
    chars
}

/// Where the segment after the last `::` among the first `n` characters of `path` starts: just
/// past that `::`, or 0 when there is none.
pub open spec fn separator_end(path: Seq<char>, n: int) -> int
    decreases n,
{
    if n < 2 {
        0
    } else if path[n - 2] == ':' && path[n - 1] == ':' {
        n
    } else {
        separator_end(path, n - 1)
    }
}

/// The segment a type path ends with: what follows its last `::`, or all of it when it has none.
pub open spec fn last_segment(path: Seq<char>) -> Seq<char> {
    path.subrange(separator_end(path, path.len() as int), path.len() as int)
}

/// The position of the first `<` at or after `i` in `text`, or its length when there is none.
pub open spec fn next_open(text: Seq<char>, i: int) -> int
    decreases text.len() - i,
{
    if i >= text.len() {
        text.len() as int
    } else if text[i] == '<' {
        i
    } else {
        next_open(text, i + 1)
    }
}

/// The display name of a type's path: every part between two `<`s shortened to the segment it
/// ends with, the parts joined back with `<`.
pub open spec fn display_name(path: Seq<char>) -> Seq<char>
    decreases path.len(),
{
    let k = next_open(path, 0);
    if k >= path.len() {
        last_segment(path)
    } else {
        proof {
            lemma_next_open_bounds(path, 0);
        }
        last_segment(path.take(k)) + seq!['<'] + display_name(path.skip(k + 1))
    }
}

/// The first `<` from `i` on lies between `i` and the end.
pub proof fn lemma_next_open_bounds(text: Seq<char>, i: int)
    requires
        0 <= i,
    ensures
        i <= next_open(text, i) || i > text.len(),
        0 <= next_open(text, i) <= text.len(),
    decreases text.len() - i,
{
    if i < text.len() && text[i] != '<' {
        lemma_next_open_bounds(text, i + 1);
    }
}

/// With no `<` from `from` up to `k`, and a `<` at `k` unless `k` is the end, the first `<`
/// from `from` on is at `k`.
proof fn lemma_next_open_at(text: Seq<char>, from: int, k: int)
    requires
        0 <= from <= k <= text.len(),
        forall|j: int| from <= j < k ==> text[j] != '<',
        k < text.len() ==> text[k] == '<',
    ensures
        next_open(text, from) == k,
    decreases k - from,
{
    if from < k {
        lemma_next_open_at(text, from + 1, k);
    }
}

/// Where the last `::` ends depends only on the characters it is looked for in.
proof fn lemma_separator_end_prefix(a: Seq<char>, b: Seq<char>, n: int)
    requires
        0 <= n <= a.len(),
        n <= b.len(),
        forall|j: int| 0 <= j < n ==> a[j] == b[j],
    ensures
        separator_end(a, n) == separator_end(b, n),
    decreases n,
{
    if n >= 2 {
        lemma_separator_end_prefix(a, b, n - 1);
    }
}

/// The last `::` among the first `n` characters ends at `n` at most.
proof fn lemma_separator_end_bounds(path: Seq<char>, n: int)
    requires
        0 <= n,
    ensures
        0 <= separator_end(path, n) <= n,
    decreases n,
{
    if n >= 2 {
        lemma_separator_end_bounds(path, n - 1);
    }
}

/// Appends `c` to `text`. Calls `String::push`, which the contract takes to add exactly that
/// character at the end.
#[verifier::external_body]
fn push_char(text: &mut String, c: char)
    ensures
        final(text)@ == old(text)@.push(c),
{
    text.push(c);
}

/// Appends `chars[from..to]` to `text`.
fn push_range(text: &mut String, chars: &Vec<char>, from: usize, to: usize)
    requires
        from <= to <= chars@.len(),
    ensures
        final(text)@ == old(text)@ + chars@.subrange(from as int, to as int),
{
    let mut i = from;
    while i < to
        invariant
            from <= i <= to <= chars@.len(),
            text@ == old(text)@ + chars@.subrange(from as int, i as int),
        decreases to - i,
    {
        push_char(text, chars[i]);
        proof {
            assert(chars@.subrange(from as int, i + 1) =~= chars@.subrange(from as int, i as int).push(
                chars@[i as int],
            ));
        }
        i = i + 1;
    }
}

/// The display name of the type whose path is `path`: the path shortened to the segment it
/// ends with, and each generic argument list likewise, part by part between `<`s.
pub fn display_name_of(path: &str) -> (name: String)
    ensures
        name@ == display_name(path@),
{
    let chars = chars_of(path);
    let ghost s = path@;
    let n = chars.len();
    let mut name = String::new();
    let mut part_start: usize = 0;
    let mut segment_start: usize = 0;
    let mut i: usize = 0;
    proof {
        assert(s.skip(0) =~= s);
        assert(name@ + s =~= s);
    }
    while i < n
        invariant
            chars@ == s,
            n == s.len(),
            part_start <= segment_start <= i <= n,
            forall|j: int| part_start <= j < i ==> s[j] != '<',
            segment_start == part_start + separator_end(
                s.subrange(part_start as int, i as int),
                i - part_start,
            ),
            display_name(s) == name@ + display_name(s.skip(part_start as int)),
        decreases n - i,
    {
        let c = chars[i];
        let ghost part = s.subrange(part_start as int, i as int);
        let ghost extended = s.subrange(part_start as int, i + 1);
        let ghost rest = s.skip(part_start as int);
        proof {
            lemma_separator_end_prefix(part, extended, i - part_start);
        }
        if c == '<' {
            let ghost k = i - part_start;
            proof {
                lemma_next_open_at(rest, 0, k);
                assert(rest.take(k) =~= part);
                lemma_separator_end_bounds(part, k);
                assert(part.subrange(separator_end(part, k), k) =~= s.subrange(
                    segment_start as int,
                    i as int,
                ));
                assert(rest.skip(k + 1) =~= s.skip(i + 1));
            }
            push_range(&mut name, &chars, segment_start, i);
            push_char(&mut name, '<');
            part_start = i + 1;
            segment_start = i + 1;
            proof {
                assert(s.subrange(part_start as int, part_start as int) =~= Seq::<char>::empty());
            }
        } else if c == ':' && i > part_start && chars[i - 1] == ':' {
            segment_start = i + 1;
        }
        i = i + 1;
    }
    let ghost rest = s.skip(part_start as int);
    proof {
        lemma_next_open_at(rest, 0, rest.len() as int);
        assert(rest =~= s.subrange(part_start as int, n as int));
        lemma_separator_end_bounds(rest, rest.len() as int);
        assert(last_segment(rest) =~= s.subrange(segment_start as int, n as int));
    }
    push_range(&mut name, &chars, segment_start, n);
    name
}

} // verus!
