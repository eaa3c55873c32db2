//! Paths of collections and contact files.
//!
//! Paths are `/`-separated strings. The user's home directory is handed in by
//! the caller.
use vstd::prelude::*;

use crate::config::{config_get, default_group_name, Config};
use crate::lexical::{char_len, push_char};

verus! {

/// Why a collection's directory cannot be found.
#[derive(Clone, Copy, Debug, PartialEq, Eq, Structural)]
pub enum CollectionError {
    /// A relative path is given and `collection_base` is not set.
    CannotMakeAbsolutePath,
    /// The collection is not named in the configuration.
    CollectionDoesNotExist,
}

/// The path's first component is `~`.
pub open spec fn starts_with_tilde(p: Seq<char>) -> bool {
    p.len() >= 1 && p[0] == '~' && (p.len() == 1 || p[1] == '/')
}

/// `rest` below `base`; an absolute `rest` stands alone.
pub open spec fn join_path(base: Seq<char>, rest: Seq<char>) -> Seq<char> {
    if rest.len() == 0 {
        base
    } else if rest[0] == '/' || base.len() == 0 {
        rest
    } else if base[base.len() - 1] == '/' {
        base + rest
    } else {
        base + seq!['/'] + rest
    }
}

/// First position at or after `i` that holds no `/` (or the length).
pub open spec fn slashes_end(p: Seq<char>, i: int) -> int
    decreases p.len() - i,
{
    if 0 <= i < p.len() && p[i] == '/' {
        slashes_end(p, i + 1)
    } else {
        i
    }
}

pub proof fn lemma_slashes_end(p: Seq<char>, i: int)
    requires
        0 <= i <= p.len(),
    ensures
        i <= slashes_end(p, i) <= p.len(),
    decreases p.len() - i,
{
    if i < p.len() && p[i] == '/' {
        lemma_slashes_end(p, i + 1);
    }
}

/// The path with a leading `~` replaced by the home directory; `None` where it
/// is needed and unknown. The separators after the `~` are dropped, so what
/// follows is always taken below the home directory.
pub open spec fn expand_tilde_spec(p: Seq<char>, home: Option<Seq<char>>) -> Option<Seq<char>> {
    if starts_with_tilde(p) {
        match home {
            Some(h) => Some(join_path(h, p.subrange(slashes_end(p, 1), p.len() as int))),
            None => None,
        }
    } else {
        Some(p)
    }
}

pub open spec fn opt_view(h: Option<&str>) -> Option<Seq<char>> {
    match h {
        Some(s) => Some(s@),
        None => None,
    }
}

pub open spec fn is_absolute(p: Seq<char>) -> bool {
    p.len() > 0 && p[0] == '/'
}

pub open spec fn collections_group() -> Seq<char> {
    seq!['C', 'o', 'l', 'l', 'e', 'c', 't', 'i', 'o', 'n', 's']
}

pub open spec fn base_key() -> Seq<char> {
    seq!['c', 'o', 'l', 'l', 'e', 'c', 't', 'i', 'o', 'n', '_', 'b', 'a', 's', 'e']
}

/// The directory of the named collection.
pub open spec fn collection_path_spec(conf: Seq<(Seq<char>, Seq<char>, Seq<char>)>, name: Seq<char>, home: Option<Seq<char>>) -> Result<Seq<char>, CollectionError> {
    match config_get(conf, collections_group(), name) {
        None => Err(CollectionError::CollectionDoesNotExist),
        Some(p) => match expand_tilde_spec(p, home) {
            None => Err(CollectionError::CannotMakeAbsolutePath),
            Some(e) => if is_absolute(e) {
                Ok(e)
            } else {
                match config_get(conf, default_group_name(), base_key()) {
                    Some(base) => Ok(join_path(base, e)),
                    None => Err(CollectionError::CannotMakeAbsolutePath),
                }
            },
        },
    }
}

fn join(base: &str, rest: &str) -> (r: String)
    ensures
        r@ == join_path(base@, rest@),
{
    let bn = char_len(base);
    let rn = char_len(rest);
    if rn == 0 {
        String::from_str(base)
    } else if rest.get_char(0) == '/' || bn == 0 {
        String::from_str(rest)
    } else if base.get_char(bn - 1) == '/' {
        let mut s = String::from_str(base);
        s.append(rest);
        s
    } else {
        let mut s = String::from_str(base);
        push_char(&mut s, '/');
        s.append(rest);
        assert(s@ =~= base@ + seq!['/'] + rest@);
        s
    }
}

/// Expand a leading `~` in a path to the user's home directory.
pub fn expand_tilde(path: &str, home: Option<&str>) -> (r: Option<String>)
    ensures
        r matches Some(s) ==> expand_tilde_spec(path@, opt_view(home)) == Some(s@),
        r is None ==> expand_tilde_spec(path@, opt_view(home)) is None,
{
    let n = char_len(path);
    let tilde = n >= 1 && path.get_char(0) == '~' && (n == 1 || path.get_char(1) == '/');
    if tilde {
        match home {
            Some(h) => {
                let mut from: usize = 1;
                while from < n && path.get_char(from) == '/'
                    invariant
                        n == path@.len(),
                        1 <= from <= n,
                        slashes_end(path@, 1) == slashes_end(path@, from as int),
                    decreases n - from,
                {
                    from += 1;
                }
                assert(slashes_end(path@, from as int) == from);
                Some(join(h, path.substring_char(from, n)))
            },
            None => None,
        }
    } else {
        Some(String::from_str(path))
    }
}

/// The directory of the named collection: its path in the `Collections`
/// group, with `~` expanded, below `collection_base` where it is relative.
pub fn collection_path(conf: &Config, name: &str, home: Option<&str>) -> (r: Result<String, CollectionError>)
    ensures
        r matches Ok(s) ==> collection_path_spec(conf@, name@, opt_view(home)) == Ok::<Seq<char>, CollectionError>(s@),
        r matches Err(e) ==> collection_path_spec(conf@, name@, opt_view(home)) == Err::<Seq<char>, CollectionError>(e),
{
    proof {
        reveal_strlit("Collections");
        reveal_strlit("collection_base");
        reveal_strlit("DEFAULT");
    }
    assert("Collections"@ =~= collections_group());
    assert("collection_base"@ =~= base_key());
    assert("DEFAULT"@ =~= default_group_name());
    let p = match conf.get("Collections", name) {
        None => {
            return Err(CollectionError::CollectionDoesNotExist);
        },
        Some(p) => p,
    };
    let e = match expand_tilde(p.as_str(), home) {
        None => {
            return Err(CollectionError::CannotMakeAbsolutePath);
        },
        Some(e) => e,
    };
    if char_len(e.as_str()) > 0 && e.as_str().get_char(0) == '/' {
        return Ok(e);
    }
    match conf.get("DEFAULT", "collection_base") {
        Some(base) => Ok(join(base.as_str(), e.as_str())),
        None => Err(CollectionError::CannotMakeAbsolutePath),
    }
}

/// A contact's name as a file name: spaces become underscores.
pub open spec fn normalized_spec(name: Seq<char>) -> Seq<char> {
    name.map_values(|c: char| if c == ' ' { '_' } else { c })
}

/// The file name for a contact's name.
pub fn normalize_contact_name(name: &str) -> (r: String)
    ensures
        r@ == normalized_spec(name@),
{
    let n = char_len(name);
    let mut s = String::new();
    let mut i: usize = 0;
    while i < n
        invariant
            n == name@.len(),
            i <= n,
            s@ == normalized_spec(name@.subrange(0, i as int)),
        decreases n - i,
    {
        let c = name.get_char(i);
        push_char(&mut s, if c == ' ' { '_' } else { c });
        assert(normalized_spec(name@.subrange(0, i + 1)) =~= normalized_spec(name@.subrange(0, i as int)).push(
            if c == ' ' { '_' } else { c },
        ));
        i += 1;
    }
    assert(name@.subrange(0, n as int) =~= name@);
    s
}

pub open spec fn digit_char(d: int) -> char {
    if d == 0 { '0' } else if d == 1 { '1' } else if d == 2 { '2' } else if d == 3 { '3' } else if d == 4 {
        '4'
    } else if d == 5 { '5' } else if d == 6 { '6' } else if d == 7 { '7' } else if d == 8 { '8' } else { '9' }
}

/// The decimal digits of `n`.
pub open spec fn decimal(n: nat) -> Seq<char>
    decreases n,
{
    if n < 10 {
        seq![digit_char(n as int)]
    } else {
        decimal(n / 10) + seq![digit_char((n % 10) as int)]
    }
}

fn digit_of(d: u32) -> (c: char)
    requires
        d < 10,
    ensures
        c == digit_char(d as int),
{
    if d == 0 { '0' } else if d == 1 { '1' } else if d == 2 { '2' } else if d == 3 { '3' } else if d == 4 {
        '4'
    } else if d == 5 { '5' } else if d == 6 { '6' } else if d == 7 { '7' } else if d == 8 { '8' } else { '9' }
}

pub open spec fn contact_ext() -> Seq<char> {
    seq!['.', 'c', 'o', 'n', 't', 'a', 'c', 't']
}

/// The file name of a contact: the name, the index where it is not zero, and
/// the extension `.contact`.
pub fn add_name_index_and_ext(name: &str, idx: u32) -> (r: String)
    ensures
        r@ == name@ + (if idx > 0 { decimal(idx as nat) } else { seq![] }) + contact_ext(),
{
    let mut s = String::from_str(name);
    if idx > 0 {
        let mut digits: Vec<char> = Vec::new();
        let mut m = idx;
        while m >= 10
            invariant
                decimal(idx as nat) == decimal(m as nat) + digits@,
            decreases m,
        {
            let ghost d0 = digits@;
            digits.insert(0, digit_of(m % 10));
            assert(decimal(m as nat) == decimal((m / 10) as nat) + seq![digit_char((m % 10) as int)]);
            assert(digits@ =~= seq![digit_char((m % 10) as int)] + d0);
            assert(decimal(idx as nat) =~= decimal((m / 10) as nat) + digits@);
            m = m / 10;
        }
        digits.insert(0, digit_of(m));
        assert(decimal(idx as nat) == digits@);
        let ghost s0 = s@;
        let mut k: usize = 0;
        while k < digits.len()
            invariant
                k <= digits.len(),
                s@ == s0 + digits@.subrange(0, k as int),
            decreases digits.len() - k,
        {
            push_char(&mut s, digits[k]);
            assert(s@ =~= s0 + digits@.subrange(0, k + 1));
            k += 1;
        }
        assert(digits@.subrange(0, digits.len() as int) =~= digits@);
    }
    let ghost s1 = s@;
    proof {
        reveal_strlit(".contact");
    }
    s.append(".contact");
    assert(s@ =~= s1 + contact_ext());
    s
}

} // verus!
