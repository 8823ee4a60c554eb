//! Selection of the cookies the remote site needs from an uploaded cookie
//! export, already shaped as plain entries by the caller.

use vstd::prelude::*;
use vstd::string::StringExecFns;
use crate::types::Cookies;

verus! {

/// One entry of a cookie export: its name, value, domain and expiry instant
/// in UTC milliseconds, each as far as the export carried it.
#[derive(Debug)]
pub struct CookieEntry {
    pub name: String,
    pub value: Option<String>,
    pub domain: Option<String>,
    pub expiration_ms: Option<i64>,
}

impl Clone for CookieEntry {
    fn clone(&self) -> (res: Self)
        ensures
            res == *self,
    {
        CookieEntry {
            name: self.name.clone(),
            value: match self.value {
                Some(ref v) => Some(v.clone()),
                None => None,
            },
            domain: match self.domain {
                Some(ref v) => Some(v.clone()),
                None => None,
            },
            expiration_ms: self.expiration_ms,
        }
    }
}

/// View of the fields a selection holds.
#[verifier::ext_equal]
pub struct CookiesV {
    pub geo: Seq<char>,
    pub hcmex: Seq<char>,
    pub device_id: Seq<char>,
    pub domain: Seq<char>,
    pub expires: int,
}

impl View for Cookies {
    type V = CookiesV;

    open spec fn view(&self) -> CookiesV {
        CookiesV {
            geo: self.geo@,
            hcmex: self.hcmex@,
            device_id: self.device_id@,
            domain: self.domain@,
            expires: self.expires as int,
        }
    }
}

pub open spec fn entry_value_or_empty(v: Option<String>) -> Seq<char> {
    match v {
        Some(s) => s@,
        None => Seq::empty(),
    }
}

/// How one entry updates the selection: only the three named cookies are
/// read, and the session cookie also carries the domain and expiry.
pub open spec fn apply_entry(acc: CookiesV, e: CookieEntry) -> CookiesV {
    if e.name@ == "geo"@ {
        CookiesV { geo: entry_value_or_empty(e.value), ..acc }
    } else if e.name@ == "_hcmex_key"@ {
        CookiesV {
            hcmex: entry_value_or_empty(e.value),
            domain: entry_value_or_empty(e.domain),
            expires: match e.expiration_ms {
                Some(t) => t as int,
                None => 0,
            },
            ..acc
        }
    } else if e.name@ == "device_id"@ {
        CookiesV { device_id: entry_value_or_empty(e.value), ..acc }
    } else {
        acc
    }
}

pub open spec fn fold_entries(acc: CookiesV, entries: Seq<CookieEntry>) -> CookiesV
    decreases entries.len(),
{
    if entries.len() == 0 {
        acc
    } else {
        fold_entries(apply_entry(acc, entries[0]), entries.drop_first())
    }
}

pub open spec fn empty_cookies() -> CookiesV {
    CookiesV {
        geo: Seq::empty(),
        hcmex: Seq::empty(),
        device_id: Seq::empty(),
        domain: Seq::empty(),
        expires: 0,
    }
}

/// Selects the remote site's cookies from an export: the last `geo`,
/// `_hcmex_key` and `device_id` entries win; absent fields come out empty or
/// zero.
pub fn parse_json_cookies(entries: &Vec<CookieEntry>) -> (r: Cookies)
    ensures
        r@ == fold_entries(empty_cookies(), entries@),
{
    let mut out = Cookies {
        geo: String::new(),
        hcmex: String::new(),
        device_id: String::new(),
        domain: String::new(),
        expires: 0,
    };
    proof {
        assert(out@ =~= empty_cookies());
        assert(entries@.skip(0) =~= entries@);
    }
    let n = entries.len();
    let mut i: usize = 0;
    while i < n
        invariant
            n == entries@.len(),
            0 <= i <= n,
            fold_entries(empty_cookies(), entries@) == fold_entries(out@, entries@.skip(i as int)),
        decreases n - i,
    {
        proof {
            assert(entries@.skip(i as int)[0] == entries@[i as int]);
            assert(entries@.skip(i as int).drop_first() =~= entries@.skip(i + 1));
        }
        let ghost acc0 = out@;
        let e = &entries[i];
        let geo_name = String::from_str("geo");
        let hcmex_name = String::from_str("_hcmex_key");
        let device_name = String::from_str("device_id");
        if e.name == geo_name {
            out.geo = clone_or_empty(&e.value);
        } else if e.name == hcmex_name {
            out.hcmex = clone_or_empty(&e.value);
            out.domain = clone_or_empty(&e.domain);
            out.expires = match e.expiration_ms {
                Some(t) => t,
                None => 0,
            };
        } else if e.name == device_name {
            out.device_id = clone_or_empty(&e.value);
        }
        proof {
            assert(out@ =~= apply_entry(acc0, entries@[i as int]));
        }
        i += 1;
    }
    proof {
        assert(entries@.skip(n as int) =~= Seq::<CookieEntry>::empty());
    }
    out
}

fn clone_or_empty(v: &Option<String>) -> (r: String)
    ensures
        r@ == entry_value_or_empty(*v),
{
    match v {
        Some(s) => s.clone(),
        None => String::new(),
    }
}

} // verus!
