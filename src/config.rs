use vstd::prelude::*;
use vstd::string::StrSliceExecFns;

verus! {

/// What reading a list of level sizes has gathered after a prefix of the
/// text: the sizes finished so far, the value of the number being read, how
/// many digits it has and whether it began with a plus sign; or nothing once
/// the text is malformed. A number may begin with one `+`, before its digits.
pub open spec fn scan_sizes(s: Seq<char>) -> Option<(Seq<usize>, nat, nat, bool)>
    decreases s.len(),
{
    if s.len() == 0 {
        Some((Seq::empty(), 0, 0, false))
    } else {
        match scan_sizes(s.drop_last()) {
            None => None,
            Some((done, cur, n, plus)) => {
                let c = s.last();
                if c == ',' {
                    if n == 0 || cur == 0 {
                        None
                    } else {
                        Some((done.push(cur as usize), 0, 0, false))
                    }
                } else if c == '+' {
                    if n == 0 && !plus {
                        Some((done, cur, n, true))
                    } else {
                        None
                    }
                } else if '0' <= c && c <= '9' {
                    let v = cur * 10 + (c as u32 - '0' as u32);
                    if v > usize::MAX {
                        None
                    } else {
                        Some((done, v as nat, n + 1, plus))
                    }
                } else {
                    None
                }
            },
        }
    }
}

/// The sizes that `s` lists: positive decimal numbers, each with an optional
/// leading `+`, separated by commas.
pub open spec fn parsed_sizes(s: Seq<char>) -> Option<Seq<usize>> {
    match scan_sizes(s) {
        Some((done, cur, n, _)) => if n == 0 || cur == 0 {
            None
        } else {
            Some(done.push(cur as usize))
        },
        None => None,
    }
}

/// Once a prefix is malformed, so is the whole text.
proof fn lemma_malformed_prefix(s: Seq<char>, k: int)
    requires
        0 <= k <= s.len(),
        scan_sizes(s.take(k)) is None,
    ensures
        scan_sizes(s) is None,
    decreases s.len() - k,
{
    if k == s.len() {
        assert(s.take(k) =~= s);
    } else {
        assert(s.take(k + 1).drop_last() =~= s.take(k));
        lemma_malformed_prefix(s, k + 1);
    }
}

/// Reads a comma separated list of positive level sizes, such as `100,50,25`.
pub fn parse_level_sizes(s: &str) -> (r: Option<Vec<usize>>)
    ensures
        match r {
            Some(v) => parsed_sizes(s@) == Some(v@) && forall|j: int|
                0 <= j < v@.len() ==> #[trigger] v@[j] >= 1,
            None => parsed_sizes(s@) is None,
        },
{
    let len = s.unicode_len();
    let mut done: Vec<usize> = Vec::new();
    let mut cur: usize = 0;
    let mut n: usize = 0;
    let mut plus: bool = false;
    let mut i: usize = 0;
    while i < len
        invariant
            len == s@.len(),
            i <= len,
            n <= i,
            scan_sizes(s@.take(i as int)) == Some((done@, cur as nat, n as nat, plus)),
            forall|j: int| 0 <= j < done@.len() ==> #[trigger] done@[j] >= 1,
        decreases len - i,
    {
        let c = s.get_char(i);
        assert(s@.take(i + 1).drop_last() =~= s@.take(i as int));
        assert(s@.take(i + 1).last() == c);
        if c == ',' {
            if n == 0 || cur == 0 {
                proof {
                    lemma_malformed_prefix(s@, i + 1);
                }
                return None;
            }
            done.push(cur);
            cur = 0;
            n = 0;
            plus = false;
        } else if c == '+' {
            if n != 0 || plus {
                proof {
                    lemma_malformed_prefix(s@, i + 1);
                }
                return None;
            }
            plus = true;
        } else if '0' <= c && c <= '9' {
            let d = (c as u32 - '0' as u32) as u128;
            let v: u128 = (cur as u128) * 10 + d;
            if v > usize::MAX as u128 {
                proof {
                    lemma_malformed_prefix(s@, i + 1);
                }
                return None;
            }
            cur = v as usize;
            n = n + 1;
        } else {
            proof {
                lemma_malformed_prefix(s@, i + 1);
            }
            return None;
        }
        i = i + 1;
    }
    assert(s@.take(len as int) =~= s@);
    if n == 0 || cur == 0 {
        return None;
    }
    done.push(cur);
    Some(done)
}

} // verus!
