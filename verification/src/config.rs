//! Agent configuration values and their validation rules.  Reading and
//! deserialising the configuration file happens outside; the rules on what
//! a loaded configuration may look like live here.

use vstd::prelude::*;

use crate::scan;

verus! {

/// Logging section of the configuration.
#[derive(Debug, Clone, PartialEq)]
pub struct LoggingConfig {
    pub enabled: bool,
    pub level: Vec<u8>,
    pub format: Vec<u8>,
}

/// TLS section of the configuration.
#[derive(Debug, Clone, PartialEq)]
pub struct TlsConfig {
    pub enabled: bool,
    pub cert_file: Option<Vec<u8>>,
    pub key_file: Option<Vec<u8>>,
    pub ca_file: Option<Vec<u8>>,
    pub client_auth: Option<Vec<u8>>,
}

/// Why a TLS section is rejected.
#[derive(Debug, Clone, Copy, PartialEq, Eq, Structural)]
pub enum TlsConfigError {
    CertAndKeyRequired,
    CaRequired,
}

/// The bytes of `require-and-verify`, the client-auth mode that demands a
/// trust root.
pub open spec fn require_and_verify() -> Seq<u8> {
    seq![
        114u8, 101u8, 113u8, 117u8, 105u8, 114u8, 101u8, 45u8, 97u8, 110u8, 100u8, 45u8, 118u8,
        101u8, 114u8, 105u8, 102u8, 121u8,
    ]
}

/// The validation verdict on a TLS section: enabling TLS demands a
/// certificate and key, and client verification demands a trust root.
pub open spec fn spec_validate_tls(
    enabled: bool,
    has_cert: bool,
    has_key: bool,
    has_ca: bool,
    client_auth: Option<Seq<u8>>,
) -> Result<(), TlsConfigError> {
    if enabled && (!has_cert || !has_key) {
        Err(TlsConfigError::CertAndKeyRequired)
    } else if enabled && client_auth == Some(require_and_verify()) && !has_ca {
        Err(TlsConfigError::CaRequired)
    } else {
        Ok(())
    }
}

impl TlsConfig {
    /// Checks the section: when TLS is enabled a certificate and key must
    /// both be present, and the `require-and-verify` client-auth mode also
    /// demands a trust root.
    pub fn validate(&self) -> (r: Result<(), TlsConfigError>)
        ensures
            r == spec_validate_tls(
                self.enabled,
                self.cert_file is Some,
                self.key_file is Some,
                self.ca_file is Some,
                match self.client_auth {
                    Some(v) => Some(v@),
                    None => None,
                },
            ),
    {
        let rav: [u8; 18] = [
            114u8, 101u8, 113u8, 117u8, 105u8, 114u8, 101u8, 45u8, 97u8, 110u8, 100u8, 45u8,
            118u8, 101u8, 114u8, 105u8, 102u8, 121u8,
        ];
        proof {
            assert(rav@ =~= require_and_verify());
        }
        if self.enabled {
            let has_cert = match &self.cert_file {
                Some(_) => true,
                None => false,
            };
            let has_key = match &self.key_file {
                Some(_) => true,
                None => false,
            };
            if !has_cert || !has_key {
                return Err(TlsConfigError::CertAndKeyRequired);
            }
            match &self.client_auth {
                Some(mode) => {
                    if scan::bytes_eq(mode.as_slice(), rav.as_slice()) {
                        match &self.ca_file {
                            Some(_) => Ok(()),
                            None => Err(TlsConfigError::CaRequired),
                        }
                    } else {
                        Ok(())
                    }
                },
                None => Ok(()),
            }
        } else {
            Ok(())
        }
    }
}

impl Default for LoggingConfig {
    /// The defaults the agent starts from: logging on, `info` level, `json`
    /// format.
    fn default() -> (r: Self)
        ensures
            r.enabled == true,
            r.level@ == seq![105u8, 110u8, 102u8, 111u8],
            r.format@ == seq![106u8, 115u8, 111u8, 110u8],
    {
        let level_bytes: [u8; 4] = [105u8, 110u8, 102u8, 111u8];
        let format_bytes: [u8; 4] = [106u8, 115u8, 111u8, 110u8];
        let level = scan::copy_range(level_bytes.as_slice(), 0, 4);
        let format = scan::copy_range(format_bytes.as_slice(), 0, 4);
        proof {
            assert(level@ =~= seq![105u8, 110u8, 102u8, 111u8]);
            assert(format@ =~= seq![106u8, 115u8, 111u8, 110u8]);
        }
        LoggingConfig { enabled: true, level, format }
    }
}

/// Whether `b` is an ASCII decimal digit.
pub open spec fn is_digit(b: u8) -> bool {
    48 <= b <= 57
}

/// The expansion of a shorthand listen address: `:<port>` becomes
/// `[::]:<port>`; anything else is kept as written.
pub open spec fn spec_expand_address(addr: Seq<u8>) -> Seq<u8> {
    if addr.len() >= 2 && addr[0] == 58 && (forall|j: int|
        1 <= j < addr.len() ==> is_digit(#[trigger] addr[j])) {
        seq![91u8, 58u8, 58u8, 93u8] + addr
    } else {
        addr
    }
}

/// Expands a `:<port>` shorthand address to `[::]:<port>`.
pub fn expand_shorthand_address(addr: &[u8]) -> (r: Vec<u8>)
    ensures
        r@ == spec_expand_address(addr@),
{
    let shorthand = addr.len() >= 2 && addr[0] == 58 && all_digits(addr, 1, addr.len());
    if shorthand {
        let mut out: Vec<u8> = Vec::new();
        out.push(91u8);
        out.push(58u8);
        out.push(58u8);
        out.push(93u8);
        let mut rest = scan::copy_range(addr, 0, addr.len());
        out.append(&mut rest);
        proof {
            assert(out@ =~= seq![91u8, 58u8, 58u8, 93u8] + addr@);
        }
        out
    } else {
        let out = scan::copy_range(addr, 0, addr.len());
        proof {
            assert(out@ =~= addr@);
        }
        out
    }
}

/// Whether every byte of `data[lo..hi)` is a decimal digit.
fn all_digits(data: &[u8], lo: usize, hi: usize) -> (r: bool)
    requires
        lo <= hi <= data.len(),
    ensures
        r == forall|j: int| lo <= j < hi ==> is_digit(#[trigger] data@[j]),
{
    let mut i: usize = lo;
    while i < hi
        invariant
            lo <= i <= hi <= data.len(),
            forall|j: int| lo <= j < i ==> is_digit(#[trigger] data@[j]),
        decreases hi - i,
    {
        let b = data[i];
        if !(48 <= b && b <= 57) {
            return false;
        }
        i = i + 1;
    }
    true
}

/// The split of a configuration override `name:value` at its first colon,
/// or nothing when no colon is present.
pub open spec fn spec_parse_override(param: Seq<u8>) -> Option<(Seq<u8>, Seq<u8>)> {
    let c = scan::first_occ(param, 58u8) as int;
    if c >= param.len() {
        None
    } else {
        Some((param.take(c), param.skip(c + 1)))
    }
}

/// Splits a configuration override of the form `name:value`.
pub fn parse_overrides(param: &[u8]) -> (r: Option<(Vec<u8>, Vec<u8>)>)
    ensures
        match r {
            Some(p) => spec_parse_override(param@) == Some((p.0@, p.1@)),
            None => spec_parse_override(param@) is None,
        },
{
    let c = scan::find_byte(param, 0, 58u8);
    proof {
        assert(param@.skip(0) =~= param@);
    }
    if c >= param.len() {
        return None;
    }
    let name = scan::copy_range(param, 0, c);
    let value = scan::copy_range(param, c + 1, param.len());
    proof {
        assert(name@ =~= param@.take(c as int));
        assert(value@ =~= param@.skip(c + 1));
    }
    Some((name, value))
}


/// The registered configuration file formats, keyed by file extension.
#[derive(Debug, Clone, Copy, PartialEq, Eq, Structural)]
pub enum ConfigFormat {
    Toml,
    Json,
    Yaml,
    Ron,
    Ini,
    Json5,
}

/// Lowercasing of an ASCII byte.
pub open spec fn lower_byte(b: u8) -> u8 {
    if 65 <= b <= 90 {
        (b + 32) as u8
    } else {
        b
    }
}

/// The lowercased extension of a file name: what follows its last dot, or
/// nothing when it has no dot.
pub open spec fn spec_extension(name: Seq<u8>) -> Option<Seq<u8>> {
    let p = scan::last_occ(name, 46u8);
    if p < 0 {
        None
    } else {
        Some(name.skip(p + 1).map_values(|b: u8| lower_byte(b)))
    }
}

/// The format an extension names.
pub open spec fn spec_format_of_extension(ext: Seq<u8>) -> Option<ConfigFormat> {
    if ext == seq![116u8, 111u8, 109u8, 108u8] {
        Some(ConfigFormat::Toml)
    } else if ext == seq![106u8, 115u8, 111u8, 110u8] {
        Some(ConfigFormat::Json)
    } else if ext == seq![121u8, 97u8, 109u8, 108u8] || ext == seq![121u8, 109u8, 108u8] {
        Some(ConfigFormat::Yaml)
    } else if ext == seq![114u8, 111u8, 110u8] {
        Some(ConfigFormat::Ron)
    } else if ext == seq![105u8, 110u8, 105u8] {
        Some(ConfigFormat::Ini)
    } else if ext == seq![106u8, 115u8, 111u8, 110u8, 53u8] {
        Some(ConfigFormat::Json5)
    } else {
        None
    }
}

/// Determines the configuration format from a file name's extension,
/// case-insensitively; an unknown or missing extension is rejected.
pub fn get_format(name: &[u8]) -> (r: Option<ConfigFormat>)
    ensures
        r == match spec_extension(name@) {
            None => None,
            Some(ext) => spec_format_of_extension(ext),
        },
{
    let p = match scan::find_last_byte(name, 0, name.len(), 46u8) {
        None => {
            proof {
                scan::lemma_last_occ_is(name@, 46u8, -1);
            }
            return None;
        },
        Some(p) => p,
    };
    proof {
        scan::lemma_last_occ_is(name@, 46u8, p as int);
    }
    let mut ext: Vec<u8> = Vec::new();
    let mut i: usize = p + 1;
    while i < name.len()
        invariant
            p < i <= name@.len(),
            ext@ == name@.subrange(p + 1, i as int).map_values(|b: u8| lower_byte(b)),
        decreases name@.len() - i,
    {
        let b = name[i];
        let low = if 65 <= b && b <= 90 {
            b + 32
        } else {
            b
        };
        ext.push(low);
        proof {
            assert(ext@ =~= name@.subrange(p + 1, i + 1).map_values(|b2: u8| lower_byte(b2)));
        }
        i = i + 1;
    }
    proof {
        assert(name@.subrange(p + 1, name@.len() as int) =~= name@.skip(p + 1));
    }
    let toml: [u8; 4] = [116u8, 111u8, 109u8, 108u8];
    let json: [u8; 4] = [106u8, 115u8, 111u8, 110u8];
    let yaml: [u8; 4] = [121u8, 97u8, 109u8, 108u8];
    let yml: [u8; 3] = [121u8, 109u8, 108u8];
    let ron: [u8; 3] = [114u8, 111u8, 110u8];
    let ini: [u8; 3] = [105u8, 110u8, 105u8];
    let json5: [u8; 5] = [106u8, 115u8, 111u8, 110u8, 53u8];
    proof {
        assert(toml@ =~= seq![116u8, 111u8, 109u8, 108u8]);
        assert(json@ =~= seq![106u8, 115u8, 111u8, 110u8]);
        assert(yaml@ =~= seq![121u8, 97u8, 109u8, 108u8]);
        assert(yml@ =~= seq![121u8, 109u8, 108u8]);
        assert(ron@ =~= seq![114u8, 111u8, 110u8]);
        assert(ini@ =~= seq![105u8, 110u8, 105u8]);
        assert(json5@ =~= seq![106u8, 115u8, 111u8, 110u8, 53u8]);
    }
    if scan::bytes_eq(ext.as_slice(), toml.as_slice()) {
        Some(ConfigFormat::Toml)
    } else if scan::bytes_eq(ext.as_slice(), json.as_slice()) {
        Some(ConfigFormat::Json)
    } else if scan::bytes_eq(ext.as_slice(), yaml.as_slice()) || scan::bytes_eq(
        ext.as_slice(),
        yml.as_slice(),
    ) {
        Some(ConfigFormat::Yaml)
    } else if scan::bytes_eq(ext.as_slice(), ron.as_slice()) {
        Some(ConfigFormat::Ron)
    } else if scan::bytes_eq(ext.as_slice(), ini.as_slice()) {
        Some(ConfigFormat::Ini)
    } else if scan::bytes_eq(ext.as_slice(), json5.as_slice()) {
        Some(ConfigFormat::Json5)
    } else {
        None
    }
}

} // verus!
