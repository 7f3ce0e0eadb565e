//! Splitting one input line into its cells.

use crate::render::push_char;
use crate::table::row_view;
use vstd::prelude::*;

verus! {

/// The fields of `s` between occurrences of `delim`: one more field than
/// `s` holds delimiters, each possibly empty.
pub open spec fn split_on(s: Seq<char>, delim: char) -> Seq<Seq<char>>
    decreases s.len(),
{
    if s.len() == 0 {
        seq![Seq::empty()]
    } else {
        let prev = split_on(s.drop_last(), delim);
        if s.last() == delim {
            prev.push(Seq::empty())
        } else {
            prev.update(prev.len() - 1, prev.last().push(s.last()))
        }
    }
}

proof fn lemma_split_on_nonempty(s: Seq<char>, delim: char)
    ensures
        split_on(s, delim).len() >= 1,
    decreases s.len(),
{
    if s.len() > 0 {
        lemma_split_on_nonempty(s.drop_last(), delim);
    }
}

/// The cells of one line of comma-separated text, in order.
pub fn split_line(line: &str) -> (r: Vec<String>)
    ensures
        row_view(r@) == split_on(line@, ','),
{
    let n = line.unicode_len();
    let mut fields: Vec<String> = Vec::new();
    let mut cur = String::new();
    let mut i: usize = 0;
    while i < n
        invariant
            n == line@.len(),
            i <= n,
            row_view(fields@).push(cur@) == split_on(line@.take(i as int), ','),
        decreases n - i,
    {
        let c = line.get_char(i);
        proof {
            let s = line@.take(i + 1);
            assert(s.drop_last() =~= line@.take(i as int));
            assert(s.last() == c);
            lemma_split_on_nonempty(line@.take(i as int), ',');
        }
        if c == ',' {
            proof {
                assert(row_view(fields@.push(cur)).push(Seq::<char>::empty()) =~= row_view(fields@).push(cur@).push(
                    Seq::empty(),
                ));
            }
            fields.push(cur);
            cur = String::new();
        } else {
            let ghost before = cur@;
            push_char(&mut cur, c);
            proof {
                let prev = row_view(fields@).push(before);
                assert(row_view(fields@).push(cur@) =~= prev.update(prev.len() - 1, prev.last().push(c)));
            }
        }
        i = i + 1;
    }
    proof {
        assert(line@.take(n as int) =~= line@);
        assert(row_view(fields@.push(cur)) =~= row_view(fields@).push(cur@));
    }
    fields.push(cur);
    fields
}

} // verus!
