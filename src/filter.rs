//! The resampling filter used when an image is resized.
use vstd::prelude::*;
use crate::lex::{chars_of, eq_ignore_case, eq_ignore_case_at};

verus! {

#[derive(Debug, Clone, Copy, PartialEq, Eq, Structural)]
pub enum FilterType {
    Nearest,
    Triangle,
    CatmullRom,
    Gaussian,
    Lanczos3,
}

#[derive(Debug, Clone, Copy, PartialEq, Eq, Structural)]
pub struct Filter(pub FilterType);

/// The text is no filter name.
#[derive(Debug, PartialEq, Eq, Structural)]
pub struct FilterParseError();

/// The filter that the text `s` names, ignoring ASCII case.
pub open spec fn filter_of(s: Seq<char>) -> Option<FilterType> {
    if eq_ignore_case(s, seq!['c', 'a', 't', 'm', 'u', 'l', 'l', '-', 'r', 'o', 'm'])
        || eq_ignore_case(s, seq!['c', 'a', 't', 'm', 'u', 'l', 'l', 'r', 'o', 'm']) {
        Some(FilterType::CatmullRom)
    } else if eq_ignore_case(s, seq!['g', 'a', 'u', 's', 's', 'i', 'a', 'n']) {
        Some(FilterType::Gaussian)
    } else if eq_ignore_case(s, seq!['l', 'a', 'n', 'c', 'z', 'o', 's', '3']) {
        Some(FilterType::Lanczos3)
    } else if eq_ignore_case(s, seq!['n', 'e', 'a', 'r', 'e', 's', 't']) {
        Some(FilterType::Nearest)
    } else if eq_ignore_case(s, seq!['t', 'r', 'i', 'a', 'n', 'g', 'l', 'e']) {
        Some(FilterType::Triangle)
    } else {
        None
    }
}

impl Filter {
    pub fn new(filter: FilterType) -> (r: Filter)
        ensures
            r.0 == filter,
    {
        Filter(filter)
    }

    /// Parses a filter name.
    pub fn parse(value: &str) -> (r: Result<Filter, FilterParseError>)
        ensures
            r == (match filter_of(value@) {
                Some(f) => Ok::<Filter, FilterParseError>(Filter(f)),
                None => Err(FilterParseError()),
            }),
    {
        let c = chars_of(value);
        let n = c.len();
        proof {
            assert(c@.subrange(0, n as int) =~= value@);
        }
        if eq_ignore_case_at(&c, 0, n, &vec!['c', 'a', 't', 'm', 'u', 'l', 'l', '-', 'r', 'o', 'm'])
            || eq_ignore_case_at(&c, 0, n, &vec!['c', 'a', 't', 'm', 'u', 'l', 'l', 'r', 'o', 'm']) {
            Ok(Filter(FilterType::CatmullRom))
        } else if eq_ignore_case_at(&c, 0, n, &vec!['g', 'a', 'u', 's', 's', 'i', 'a', 'n']) {
            Ok(Filter(FilterType::Gaussian))
        } else if eq_ignore_case_at(&c, 0, n, &vec!['l', 'a', 'n', 'c', 'z', 'o', 's', '3']) {
            Ok(Filter(FilterType::Lanczos3))
        } else if eq_ignore_case_at(&c, 0, n, &vec!['n', 'e', 'a', 'r', 'e', 's', 't']) {
            Ok(Filter(FilterType::Nearest))
        } else if eq_ignore_case_at(&c, 0, n, &vec!['t', 'r', 'i', 'a', 'n', 'g', 'l', 'e']) {
            Ok(Filter(FilterType::Triangle))
        } else {
            Err(FilterParseError())
        }
    }
}

impl std::str::FromStr for Filter {
    type Err = FilterParseError;

    /// Parses as `parse` does.
    fn from_str(value: &str) -> (r: Result<Filter, FilterParseError>)
        ensures
            r == (match filter_of(value@) {
                Some(f) => Ok::<Filter, FilterParseError>(Filter(f)),
                None => Err(FilterParseError()),
            }),
    {
        Filter::parse(value)
    }
}

/// The filter's name as `Debug` writes it.
pub open spec fn filter_text(f: FilterType) -> Seq<char> {
    match f {
        FilterType::Nearest => seq!['N', 'e', 'a', 'r', 'e', 's', 't'],
        FilterType::Triangle => seq!['T', 'r', 'i', 'a', 'n', 'g', 'l', 'e'],
        FilterType::CatmullRom => seq!['C', 'a', 't', 'm', 'u', 'l', 'l', 'R', 'o', 'm'],
        FilterType::Gaussian => seq!['G', 'a', 'u', 's', 's', 'i', 'a', 'n'],
        FilterType::Lanczos3 => seq!['L', 'a', 'n', 'c', 'z', 'o', 's', '3'],
    }
}

impl Filter {
    /// The filter's name, which `parse` reads back.
    pub fn to_string(&self) -> (r: String)
        ensures
            r@ == filter_text(self.0),
    {
        proof {
            reveal_strlit("Nearest");
            reveal_strlit("Triangle");
            reveal_strlit("CatmullRom");
            reveal_strlit("Gaussian");
            reveal_strlit("Lanczos3");
        }
        match self.0 {
            FilterType::Nearest => "Nearest".to_owned(),
            FilterType::Triangle => "Triangle".to_owned(),
            FilterType::CatmullRom => "CatmullRom".to_owned(),
            FilterType::Gaussian => "Gaussian".to_owned(),
            FilterType::Lanczos3 => "Lanczos3".to_owned(),
        }
    }
}

/// Parsing a filter's name gives the filter back.
pub proof fn lemma_parse_filter_text(f: FilterType)
    ensures
        filter_of(filter_text(f)) == Some(f),
{
    let t = filter_text(f);
    match f {
        FilterType::Nearest => {
            assert(!eq_ignore_case(t, seq!['g', 'a', 'u', 's', 's', 'i', 'a', 'n']));
            assert(!eq_ignore_case(t, seq!['l', 'a', 'n', 'c', 'z', 'o', 's', '3']));
        },
        FilterType::Triangle => {
            assert(t[0] != 'g' && t[0] as u32 + 32 != 'g' as u32);
            assert(!eq_ignore_case(t, seq!['g', 'a', 'u', 's', 's', 'i', 'a', 'n']));
            assert(t[0] != 'l' && t[0] as u32 + 32 != 'l' as u32);
            assert(!eq_ignore_case(t, seq!['l', 'a', 'n', 'c', 'z', 'o', 's', '3']));
            assert(!eq_ignore_case(t, seq!['n', 'e', 'a', 'r', 'e', 's', 't']));
        },
        FilterType::Gaussian => {},
        FilterType::Lanczos3 => {
            assert(t[0] != 'g' && t[0] as u32 + 32 != 'g' as u32);
            assert(!eq_ignore_case(t, seq!['g', 'a', 'u', 's', 's', 'i', 'a', 'n']));
        },
        FilterType::CatmullRom => {},
    }
}

} // verus!
