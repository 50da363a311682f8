//! The computing half of the user-identity provider: extracting the
//! display name from a gecos entry. Looking the entry up in the user
//! database is platform work and stays with the caller.

use vstd::prelude::*;
use crate::text::{chars_string, to_char_vec};

verus! {

/// The display name carried by a gecos entry: everything before the first
/// comma.
pub open spec fn gecos_name(s: Seq<char>) -> Seq<char>
    decreases s.len(),
{
    if s.len() == 0 {
        Seq::empty()
    } else if s[0] == ',' {
        Seq::empty()
    } else {
        seq![s[0]] + gecos_name(s.drop_first())
    }
}

/// The display name of a gecos entry, or nothing when the entry starts
/// with a comma or is empty — an empty name is a lookup failure, not a
/// name.
pub fn gecos_display_name(gecos: &str) -> (r: Option<String>)
    ensures
        r matches Some(n) ==> n@ == gecos_name(gecos@) && n@.len() > 0,
        r is None <==> gecos_name(gecos@).len() == 0,
{
    let chars = to_char_vec(gecos);
    let mut acc: Vec<char> = Vec::new();
    let mut i: usize = 0;
    let mut stopped = false;
    proof {
        assert(chars@.skip(0) =~= chars@);
        assert(acc@ + gecos_name(chars@) =~= gecos_name(chars@));
    }
    while i < chars.len() && !stopped
        invariant
            i <= chars@.len(),
            !stopped ==> gecos_name(chars@) == acc@ + gecos_name(chars@.skip(i as int)),
            stopped ==> gecos_name(chars@) == acc@,
        decreases chars@.len() - i + (if stopped {
            0int
        } else {
            1int
        }),
    {
        proof {
            assert(chars@.skip(i as int)[0] == chars@[i as int]);
            assert(chars@.skip(i as int).drop_first() =~= chars@.skip(i as int + 1));
        }
        let c = chars[i];
        if c == ',' {
            stopped = true;
            proof {
                assert(gecos_name(chars@.skip(i as int)) =~= Seq::<char>::empty());
                assert(gecos_name(chars@) =~= acc@);
            }
        } else {
            let ghost pre = acc@;
            acc.push(c);
            i = i + 1;
            proof {
                assert(pre + (seq![c] + gecos_name(chars@.skip(i as int))) =~= acc@ + gecos_name(
                    chars@.skip(i as int),
                ));
            }
        }
    }
    proof {
        if !stopped {
            assert(chars@.skip(chars@.len() as int) =~= Seq::<char>::empty());
            assert(gecos_name(chars@) =~= acc@);
        }
    }
    if acc.len() == 0 {
        None
    } else {
        Some(chars_string(&acc))
    }
}

} // verus!
