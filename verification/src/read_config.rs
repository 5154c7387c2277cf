use vstd::prelude::*;
use vstd::string::StringExecFns;
use vstd::string::StrSliceExecFns;

verus! {

/// Configuration of one interface.
#[derive(Debug)]
pub struct InterfaceConfig {
    pub name: String,
    pub capacity_mbps: u32,
    pub link_active: bool,
}

impl Clone for InterfaceConfig {
    fn clone(&self) -> (r: Self)
        ensures
            r.name@ == self.name@,
            r.capacity_mbps == self.capacity_mbps,
            r.link_active == self.link_active,
    {
        InterfaceConfig {
            name: self.name.clone(),
            capacity_mbps: self.capacity_mbps,
            link_active: self.link_active,
        }
    }
}

/// Configuration of a router: its interfaces and an optional shared key.
#[derive(Debug)]
pub struct RouterConfig {
    pub interfaces: Vec<InterfaceConfig>,
    pub key: Option<String>,
}

/// An interface without an explicit state is active.
pub fn default_link_active() -> (r: bool)
    ensures
        r,
{
    true
}

/// The text before the first `.` of `s`, or all of `s`.
pub open spec fn spec_first_label(s: Seq<char>) -> Seq<char> {
    if exists|i: int| 0 <= i < s.len() && s[i] == '.' {
        let i = choose|i: int|
            0 <= i < s.len() && s[i] == '.' && forall|j: int| 0 <= j < i ==> s[j] != '.';
        s.take(i)
    } else {
        s
    }
}

/// The short host name: the part of `hostname` before its first `.`.
pub fn hostname_prefix(hostname: &str) -> (r: String)
    ensures
        r@ == spec_first_label(hostname@),
{
    let n = hostname.unicode_len();
    let mut i: usize = 0;
    while i < n
        invariant
            n == hostname@.len(),
            i <= n,
            forall|j: int| 0 <= j < i ==> hostname@[j] != '.',
        decreases n - i,
    {
        if hostname.get_char(i) == '.' {
            let r = hostname.substring_char(0, i).to_string();
            proof {
                let s = hostname@;
                assert(exists|k: int| 0 <= k < s.len() && s[k] == '.');
                let k = choose|k: int|
                    0 <= k < s.len() && s[k] == '.' && forall|j: int| 0 <= j < k ==> s[j] != '.';
                assert(k == i as int) by {
                    if k < i {
                    } else if k > i {
                    }
                }
            }
            return r;
        }
        i += 1;
    }
    hostname.to_string()
}

/// Path of the configuration file of the router named `hostname`.
pub fn config_path(hostname: &str) -> (r: String)
    ensures
        r@ == "src/conf/config_"@ + hostname@ + ".toml"@,
{
    let mut r = "src/conf/config_".to_string();
    r.append(hostname);
    r.append(".toml");
    r
}

} // verus!
