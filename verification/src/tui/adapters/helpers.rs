use vstd::prelude::*;

use crate::solver::text::{chars_of, parse_u64_word, parse_usize_word, u64_word, usize_word};
use crate::tui::adapters::adapter::{entries_view, setting_of};

verus! {

/// A number type that a setting can hold.
pub trait NumericParam: Sized {
    /// The number that `text` denotes, if it is one.
    spec fn parsed(text: Seq<char>) -> Option<Self>;

    fn parse_param(text: &String) -> (r: Option<Self>)
        ensures
            r == Self::parsed(text@),
    ;
}

impl NumericParam for usize {
    open spec fn parsed(text: Seq<char>) -> Option<usize> {
        usize_word(text)
    }

    fn parse_param(text: &String) -> (r: Option<usize>) {
        parse_usize_word(&chars_of(text.as_str()))
    }
}

impl NumericParam for u64 {
    open spec fn parsed(text: Seq<char>) -> Option<u64> {
        u64_word(text)
    }

    fn parse_param(text: &String) -> (r: Option<u64>) {
        parse_u64_word(&chars_of(text.as_str()))
    }
}

/// The value of the setting `field_name` among `settings`, the later pair
/// where the name comes twice.
pub fn find_setting<'s>(settings: &'s Vec<(String, String)>, field_name: &str) -> (r: Option<
    &'s String,
>)
    ensures
        match r {
            Some(v) => setting_of(entries_view(settings@), field_name@) == Some(v@),
            None => setting_of(entries_view(settings@), field_name@) is None,
        },
{
    let mut i: usize = settings.len();
    proof {
        assert(entries_view(settings@).take(i as int) =~= entries_view(settings@));
    }
    while i > 0
        invariant
            i <= settings@.len(),
            setting_of(entries_view(settings@), field_name@) == setting_of(
                entries_view(settings@).take(i as int),
                field_name@,
            ),
        decreases i,
    {
        let ghost e = entries_view(settings@).take(i as int);
        proof {
            assert(e.drop_last() =~= entries_view(settings@).take(i - 1));
        }
        if str_eq(settings[i - 1].0.as_str(), field_name) {
            return Some(&settings[i - 1].1);
        }
        i -= 1;
    }
    None
}

/// Whether two texts hold the same characters.
fn str_eq(a: &str, b: &str) -> (r: bool)
    ensures
        r == (a@ == b@),
{
    let x = chars_of(a);
    let y = chars_of(b);
    if x.len() != y.len() {
        return false;
    }
    let mut i: usize = 0;
    while i < x.len()
        invariant
            x@ == a@,
            y@ == b@,
            x@.len() == y@.len(),
            i <= x@.len(),
            forall|k: int| 0 <= k < i ==> x@[k] == y@[k],
        decreases x@.len() - i,
    {
        let cx: char = x[i];
        let cy: char = y[i];
        if cx != cy {
            return false;
        }
        i += 1;
    }
    proof {
        assert(x@ =~= y@);
    }
    true
}

/// The number that the setting `field_name` holds, or `default_value` where
/// the setting is missing or is not a number.
pub fn get_numeric_param<T: NumericParam>(
    settings: &Vec<(String, String)>,
    field_name: &str,
    default_value: T,
) -> (r: T)
    ensures
        r == match setting_of(entries_view(settings@), field_name@) {
            Some(raw) => match T::parsed(raw) {
                Some(v) => v,
                None => default_value,
            },
            None => default_value,
        },
{
    match find_setting(settings, field_name) {
        Some(raw) => match T::parse_param(raw) {
            Some(v) => v,
            None => default_value,
        },
        None => default_value,
    }
}

/// The number that the setting `field_name` holds, or `default_value` where
/// the setting is missing or is not a number.
pub fn get_optional_numeric_param<T: NumericParam>(
    settings: &Vec<(String, String)>,
    field_name: &str,
    default_value: Option<T>,
) -> (r: Option<T>)
    ensures
        r == match setting_of(entries_view(settings@), field_name@) {
            Some(raw) => match T::parsed(raw) {
                Some(v) => Some(v),
                None => default_value,
            },
            None => default_value,
        },
{
    match find_setting(settings, field_name) {
        Some(raw) => match T::parse_param(raw) {
            Some(v) => Some(v),
            None => default_value,
        },
        None => default_value,
    }
}

} // verus!
