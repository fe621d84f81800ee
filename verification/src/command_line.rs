//! Building the measured command line.
//!
//! The command template is split on blank space; the first word names the
//! program, the remaining words are its fixed leading arguments, and the
//! current input file's path is appended as the final argument.

use vstd::prelude::*;

verus! {

/// Whether `b` is ASCII blank space for the purpose of splitting a command
/// template into words.
pub open spec fn is_blank(b: u8) -> bool {
    b == 32 || b == 9 || b == 10 || b == 11 || b == 12 || b == 13
}

/// The words of `s`: its maximal runs of non-blank bytes, in order.
pub open spec fn spec_words(s: Seq<u8>) -> Seq<Seq<u8>>
    decreases s.len(),
{
    if s.len() == 0 {
        Seq::empty()
    } else if is_blank(s[0]) {
        spec_words(s.drop_first())
    } else {
        let rest = spec_words(s.drop_first());
        if s.len() >= 2 && !is_blank(s[1]) {
            seq![seq![s[0]] + rest[0]] + rest.drop_first()
        } else {
            seq![seq![s[0]]] + rest
        }
    }
}

/// A string that starts with a non-blank byte has a first word.
pub proof fn lemma_words_nonempty(s: Seq<u8>)
    requires
        s.len() > 0,
        !is_blank(s[0]),
    ensures
        spec_words(s).len() >= 1,
    decreases s.len(),
{
    if s.len() >= 2 && !is_blank(s[1]) {
        lemma_words_nonempty(s.drop_first());
    }
}

/// The views of a sequence of byte strings.
pub open spec fn views_of(v: Seq<Vec<u8>>) -> Seq<Seq<u8>> {
    Seq::new(v.len(), |i: int| v[i]@)
}

/// Splits the byte string `s[i ..]` into its words.
fn words_from(s: &Vec<u8>, i: usize) -> (r: Vec<Vec<u8>>)
    requires
        i <= s@.len(),
    ensures
        views_of(r@) == spec_words(s@.skip(i as int)),
    decreases s@.len() - i,
{
    let n = s.len();
    if i == n {
        let r: Vec<Vec<u8>> = Vec::new();
        proof {
            assert(s@.skip(i as int) =~= Seq::<u8>::empty());
            assert(views_of(r@) =~= spec_words(s@.skip(i as int)));
        }
        return r;
    }
    let ghost tail = s@.skip(i as int);
    proof {
        assert(tail[0] == s@[i as int]);
        assert(tail.drop_first() =~= s@.skip(i as int + 1));
    }
    let b = s[i];
    if b == 32 || b == 9 || b == 10 || b == 11 || b == 12 || b == 13 {
        words_from(s, i + 1)
    } else {
        let mut rest = words_from(s, i + 1);
        if i + 1 < n && !{
            let c = s[i + 1];
            c == 32 || c == 9 || c == 10 || c == 11 || c == 12 || c == 13
        } {
            proof {
                lemma_words_nonempty(s@.skip(i as int + 1));
                assert(views_of(rest@).len() >= 1);
            }
            let ghost rest0 = rest@;
            let mut first = rest.remove(0);
            let ghost firstv = first@;
            first.insert(0, b);
            proof {
                assert(first@ =~= seq![b] + firstv);
            }
            rest.insert(0, first);
            proof {
                let words_tail = spec_words(s@.skip(i as int + 1));
                let rhs = seq![seq![b] + words_tail[0]] + words_tail.drop_first();
                assert(firstv == views_of(rest0)[0]);
                assert(rest@.len() == rest0.len());
                assert forall|p: int| 0 <= p < rest@.len() implies views_of(rest@)[p] == rhs[p] by {
                    if p == 0 {
                        assert(rest@[0] == first);
                    } else {
                        assert(rest@[p] == rest0.remove(0).insert(0, first)[p]);
                        assert(rest@[p] == rest0[p]);
                        assert(views_of(rest0)[p] == words_tail[p]);
                    }
                }
                assert(views_of(rest@) =~= rhs);
            }
            rest
        } else {
            let mut one: Vec<u8> = Vec::new();
            one.push(b);
            proof {
                assert(one@ =~= seq![b]);
            }
            let ghost rest0 = rest@;
            rest.insert(0, one);
            proof {
                assert(views_of(rest@) =~= seq![seq![b]] + spec_words(s@.skip(i as int + 1)));
            }
            rest
        }
    }
}

/// Splits a command template into its words.
pub fn split_command(template: &Vec<u8>) -> (r: Vec<Vec<u8>>)
    ensures
        views_of(r@) == spec_words(template@),
{
    let r = words_from(template, 0);
    proof {
        assert(template@.skip(0) =~= template@);
    }
    r
}

/// A command line ready to launch: the program and its arguments.
pub struct CommandLine {
    pub program: Vec<u8>,
    pub args: Vec<Vec<u8>>,
}

/// Builds the command line for one input file: the template's first word is
/// the program, its remaining words the leading arguments, and the input
/// file's path the final argument. A template with no words yields `None`.
pub fn build_command_line(template: &Vec<u8>, input_file: &Vec<u8>) -> (r: Option<CommandLine>)
    ensures
        match r {
            None => spec_words(template@).len() == 0,
            Some(cl) => spec_words(template@).len() > 0 && cl.program@ == spec_words(template@)[0]
                && views_of(cl.args@) == spec_words(template@).drop_first().push(input_file@),
        },
{
    let mut words = split_command(template);
    if words.len() == 0 {
        proof {
            assert(spec_words(template@).len() == views_of(words@).len());
        }
        return None;
    }
    let ghost all = spec_words(template@);
    let program = words.remove(0);
    proof {
        assert(program@ == all[0]);
    }
    let file_arg = crate::delta::clone_bytes(input_file);
    words.push(file_arg);
    proof {
        assert(views_of(words@) =~= all.drop_first().push(input_file@));
    }
    Some(CommandLine { program, args: words })
}

} // verus!
