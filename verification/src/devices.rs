//! Classifying directory entries as one-wire temperature sensor devices.
//!
//! The sole rule: an entry is a sensor exactly when its name begins with the
//! one-wire temperature family prefix `28-`.

use vstd::prelude::*;

verus! {

/// The name begins with the one-wire temperature family prefix `28-`.
pub open spec fn spec_is_sensor_name(s: Seq<char>) -> bool {
    s.len() >= 3 && s[0] == '2' && s[1] == '8' && s[2] == '-'
}

/// The views of a sequence of strings.
pub open spec fn str_views(names: Seq<String>) -> Seq<Seq<char>> {
    names.map_values(|s: String| s@)
}

/// The device-classification predicate, as a value for sequence filtering.
pub open spec fn sensor_pred() -> spec_fn(Seq<char>) -> bool {
    |q: Seq<char>| spec_is_sensor_name(q)
}

/// Decide whether a directory entry names a sensor device.
pub fn is_sensor_name(name: &str) -> (b: bool)
    ensures
        b == spec_is_sensor_name(name@),
{
    let n = name.unicode_len();
    if n < 3 {
        return false;
    }
    let c0 = name.get_char(0);
    let c1 = name.get_char(1);
    let c2 = name.get_char(2);
    c0 == '2' && c1 == '8' && c2 == '-'
}

/// Keep exactly the entries of one directory listing that name sensor
/// devices, in their listed order.
pub fn filter_sensor_names(names: &Vec<String>) -> (r: Vec<String>)
    ensures
        str_views(r@) == str_views(names@).filter(sensor_pred()),
{
    let ghost nv = str_views(names@);
    let mut r: Vec<String> = Vec::new();
    let mut i: usize = 0;
    while i < names.len()
        invariant
            i <= names.len(),
            nv == str_views(names@),
            str_views(r@) == nv.subrange(0, i as int).filter(sensor_pred()),
        decreases names.len() - i,
    {
        let keep = is_sensor_name(names[i].as_str());
        proof {
            reveal(Seq::filter);
            assert(nv.subrange(0, i + 1).drop_last() =~= nv.subrange(0, i as int));
            assert(nv.subrange(0, i + 1).last() == nv[i as int]);
        }
        if keep {
            r.push(names[i].clone());
            proof {
                assert(str_views(r@) =~= nv.subrange(0, i as int).filter(sensor_pred()).push(
                    nv[i as int],
                ));
            }
        } else {
            proof {
                assert(str_views(r@) == nv.subrange(0, i + 1).filter(sensor_pred()));
            }
        }
        i += 1;
    }
    proof {
        assert(nv.subrange(0, names@.len() as int) =~= nv);
    }
    r
}

} // verus!
