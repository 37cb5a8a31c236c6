//! The adapter: a checked configuration of one proxy server.

use crate::number::{decimal, push_decimal};
use crate::obfs::{obfs_key, salamander_key, sha256_digest, SalamanderObfs, SHA256_MAX_LEN};
use crate::text::{is_white_space, lemma_trim_blank, str_eq, trim, trimmed};
use crate::udp::{obfuscate, on_wire};
use vstd::prelude::*;
use vstd::string::StringExecFns;
use vstd::utf8::encode_utf8;

verus! {

/// The kind of a proxy.
#[derive(Debug, Clone, Copy, PartialEq, Eq, Structural)]
pub enum AdapterType {
    Hysteria2,
}

/// The mathematical value of an adapter.
pub struct AdapterView {
    pub name: Seq<char>,
    pub addr: Seq<char>,
    pub password: Seq<char>,
    pub sni: Seq<char>,
    pub skip_cert_verify: bool,
    pub ca_pem: Option<Seq<u8>>,
    pub obfs_key: Option<Seq<u8>>,
    pub up_bps: Option<u64>,
    pub down_bps: Option<u64>,
}

/// The options of a configuration.
pub struct OptionsView {
    pub ca_pem: Option<Seq<u8>>,
    pub obfs_type: Option<Seq<char>>,
    pub obfs_password: Option<Seq<char>>,
    pub up_bps: Option<u64>,
    pub down_bps: Option<u64>,
}

/// The options of a configuration that leaves them all out.
pub open spec fn no_options() -> OptionsView {
    OptionsView { ca_pem: None, obfs_type: None, obfs_password: None, up_bps: None, down_bps: None }
}

/// The characters of an optional string.
pub open spec fn text_view(s: Option<&str>) -> Option<Seq<char>> {
    match s {
        Some(t) => Some(t@),
        None => None,
    }
}

/// The elements of an optional vector.
pub open spec fn bytes_view(v: Option<Vec<u8>>) -> Option<Seq<u8>> {
    match v {
        Some(b) => Some(b@),
        None => None,
    }
}

/// A complaint about the configuration of the proxy called `name`.
pub open spec fn config_error(name: Seq<char>, what: Seq<char>) -> Seq<char> {
    "hysteria2["@ + name + "]: "@ + what
}

/// The name that the server has to prove: the one given, unless it is blank.
pub open spec fn effective_sni(server: Seq<char>, sni: Option<Seq<char>>) -> Seq<char> {
    match sni {
        Some(s) => if trim(s).len() > 0 {
            s
        } else {
            server
        },
        None => server,
    }
}

/// The obfuscation key of a configuration, or the complaint about it.
pub open spec fn configured_key(
    name: Seq<char>,
    obfs_type: Option<Seq<char>>,
    obfs_password: Option<Seq<char>>,
) -> Result<Option<Seq<u8>>, Seq<char>> {
    match obfs_type {
        None => Ok(None),
        Some(kind) => if kind.len() == 0 {
            Ok(None)
        } else if kind == "salamander"@ {
            match obfs_password {
                Some(password) if password.len() > 0 => Ok(Some(salamander_key(password))),
                _ => Err(
                    config_error(name, "obfs=salamander requires obfs-password to be set"@),
                ),
            }
        } else {
            Err(
                config_error(
                    name,
                    "unsupported obfs type '"@ + kind + "'; only 'salamander' is supported"@,
                ),
            )
        },
    }
}

/// The adapter of a configuration, or the complaint about it.
pub open spec fn configured(
    name: Seq<char>,
    server: Seq<char>,
    port: u16,
    password: Seq<char>,
    sni: Option<Seq<char>>,
    skip_cert_verify: bool,
    options: OptionsView,
) -> Result<AdapterView, Seq<char>> {
    if password.len() == 0 {
        Err(config_error(name, "password must not be empty"@))
    } else {
        match configured_key(name, options.obfs_type, options.obfs_password) {
            Err(e) => Err(e),
            Ok(key) => Ok(
                AdapterView {
                    name,
                    addr: server + ":"@ + decimal(port as nat),
                    password,
                    sni: effective_sni(server, sni),
                    skip_cert_verify,
                    ca_pem: options.ca_pem,
                    obfs_key: key,
                    up_bps: options.up_bps,
                    down_bps: options.down_bps,
                },
            ),
        }
    }
}

/// Whether a password, where there is one, is short enough to be hashed.
pub open spec fn hashable(password: Option<&str>) -> bool {
    password matches Some(p) ==> encode_utf8(p@).len() <= SHA256_MAX_LEN
}

/// The mathematical value of a construction.
pub open spec fn construction_view(r: Result<Hy2Adapter, String>) -> Result<
    AdapterView,
    Seq<char>,
> {
    match r {
        Ok(a) => Ok(a@),
        Err(e) => Err(e@),
    }
}

/// An outbound proxy server.
#[derive(Debug)]
pub struct Hy2Adapter {
    name: String,
    addr: String,
    password: String,
    sni: String,
    skip_cert_verify: bool,
    ca_pem: Option<Vec<u8>>,
    obfs: Option<SalamanderObfs>,
    up_bps: Option<u64>,
    down_bps: Option<u64>,
}

impl View for Hy2Adapter {
    type V = AdapterView;

    closed spec fn view(&self) -> AdapterView {
        AdapterView {
            name: self.name@,
            addr: self.addr@,
            password: self.password@,
            sni: self.sni@,
            skip_cert_verify: self.skip_cert_verify,
            ca_pem: bytes_view(self.ca_pem),
            obfs_key: obfs_key(self.obfs),
            up_bps: self.up_bps,
            down_bps: self.down_bps,
        }
    }
}

fn config_error_text(name: &str, what: &str) -> (r: String)
    ensures
        r@ == config_error(name@, what@),
{
    let mut text = "hysteria2[".to_owned();
    text.append(name);
    text.append("]: ");
    text.append(what);
    text
}

fn build_obfs(name: &str, obfs_type: Option<&str>, obfs_password: Option<&str>) -> (r: Result<
    Option<SalamanderObfs>,
    String,
>)
    requires
        text_view(obfs_type) == Some("salamander"@) ==> hashable(obfs_password),
    ensures
        match configured_key(name@, text_view(obfs_type), text_view(obfs_password)) {
            Ok(key) => r is Ok && obfs_key(r->Ok_0) == key,
            Err(e) => r is Err && r->Err_0@ == e,
        },
        r matches Ok(Some(_)) ==> sha256_digest(encode_utf8(obfs_password->0@)).len() == 32,
{
    let kind = match obfs_type {
        None => return Ok(None),
        Some(kind) => kind,
    };
    if kind.is_empty() {
        return Ok(None);
    }
    if str_eq(kind, "salamander") {
        if let Some(password) = obfs_password {
            if !password.is_empty() {
                return Ok(Some(SalamanderObfs::new(password)));
            }
        }
        return Err(config_error_text(name, "obfs=salamander requires obfs-password to be set"));
    }
    let mut what = "unsupported obfs type '".to_owned();
    what.append(kind);
    what.append("'; only 'salamander' is supported");
    Err(config_error_text(name, what.as_str()))
}

impl Hy2Adapter {
    /// Every adapter has a password.
    #[verifier::type_invariant]
    closed spec fn has_password(self) -> bool {
        self.password@.len() > 0
    }

    /// Makes an adapter without obfuscation, bandwidth hints or CA bundle.
    pub fn new(
        name: &str,
        server: &str,
        port: u16,
        password: &str,
        sni: Option<&str>,
        skip_cert_verify: bool,
    ) -> (r: Result<Self, String>)
        ensures
            construction_view(r) == configured(
                name@,
                server@,
                port,
                password@,
                text_view(sni),
                skip_cert_verify,
                no_options(),
            ),
            r matches Ok(a) ==> {
                &&& a@.name == name@
                &&& a@.addr == server@ + ":"@ + decimal(port as nat)
                &&& a@.password == password@
                &&& a@.skip_cert_verify == skip_cert_verify
                &&& a@.ca_pem is None
                &&& a@.obfs_key is None
                &&& a@.up_bps is None
                &&& a@.down_bps is None
                &&& sni is None ==> a@.sni == server@
                &&& sni matches Some(s) ==> a@.sni == (if forall|i: int|
                    0 <= i < s@.len() ==> is_white_space(#[trigger] s@[i]) {
                    server@
                } else {
                    s@
                })
            },
            password@.len() == 0 ==> (r matches Err(e) && e@ == "hysteria2["@ + name@ + "]: "@
                + "password must not be empty"@),
            password@.len() > 0 ==> r is Ok,
    {
        Self::new_full(
            name,
            server,
            port,
            password,
            sni,
            skip_cert_verify,
            None,
            None,
            None,
            None,
            None,
        )
    }

    /// Makes an adapter.
    pub fn new_full(
        name: &str,
        server: &str,
        port: u16,
        password: &str,
        sni: Option<&str>,
        skip_cert_verify: bool,
        ca_pem: Option<Vec<u8>>,
        obfs_type: Option<&str>,
        obfs_password: Option<&str>,
        up_bps: Option<u64>,
        down_bps: Option<u64>,
    ) -> (r: Result<Self, String>)
        requires
            text_view(obfs_type) == Some("salamander"@) ==> hashable(obfs_password),
        ensures
            construction_view(r) == configured(
                name@,
                server@,
                port,
                password@,
                text_view(sni),
                skip_cert_verify,
                OptionsView {
                    ca_pem: bytes_view(ca_pem),
                    obfs_type: text_view(obfs_type),
                    obfs_password: text_view(obfs_password),
                    up_bps,
                    down_bps,
                },
            ),
            r matches Ok(a) ==> a@.obfs_key is Some ==> sha256_digest(
                encode_utf8(obfs_password->0@),
            ).len() == 32,
            r matches Ok(a) ==> {
                &&& a@.name == name@
                &&& a@.addr == server@ + ":"@ + decimal(port as nat)
                &&& a@.password == password@
                &&& a@.skip_cert_verify == skip_cert_verify
                &&& ca_pem is None ==> a@.ca_pem is None
                &&& ca_pem matches Some(pem) ==> a@.ca_pem == Some(pem@)
                &&& a@.up_bps == up_bps
                &&& a@.down_bps == down_bps
                &&& obfs_type is None || obfs_type->0@.len() == 0 ==> a@.obfs_key is None
                &&& obfs_type is Some && obfs_type->0@.len() > 0 ==> {
                    &&& a@.obfs_key is Some
                    &&& a@.obfs_key->0.len() == 16
                    &&& forall|i: int|
                        0 <= i < 16 ==> #[trigger] a@.obfs_key->0[i] == sha256_digest(
                            encode_utf8(obfs_password->0@),
                        )[i]
                }
                &&& sni is None ==> a@.sni == server@
                &&& sni matches Some(s) ==> a@.sni == (if forall|i: int|
                    0 <= i < s@.len() ==> is_white_space(#[trigger] s@[i]) {
                    server@
                } else {
                    s@
                })
            },
            password@.len() == 0 ==> (r matches Err(e) && e@ == "hysteria2["@ + name@ + "]: "@
                + "password must not be empty"@),
            password@.len() > 0 && (obfs_type is None || obfs_type->0@.len() == 0) ==> r is Ok,
            password@.len() > 0 && obfs_type is Some && obfs_type->0@ == "salamander"@ ==> (if
            obfs_password is Some && obfs_password->0@.len() > 0 {
                r is Ok
            } else {
                r matches Err(e) && e@ == "hysteria2["@ + name@ + "]: "@
                    + "obfs=salamander requires obfs-password to be set"@
            }),
            password@.len() > 0 && obfs_type is Some && obfs_type->0@.len() > 0 && obfs_type->0@
                != "salamander"@ ==> (r matches Err(e) && e@ == "hysteria2["@ + name@ + "]: "@ + (
            "unsupported obfs type '"@ + obfs_type->0@ + "'; only 'salamander' is supported"@)),
    {
        proof {
            reveal_strlit("salamander");
            law_sni_defaults_to_server(server@, text_view(sni));
        }
        if password.is_empty() {
            return Err(config_error_text(name, "password must not be empty"));
        }
        let effective = match sni {
            Some(s) => if trimmed(s).is_empty() {
                server
            } else {
                s
            },
            None => server,
        };
        let obfs = match build_obfs(name, obfs_type, obfs_password) {
            Ok(obfs) => obfs,
            Err(e) => return Err(e),
        };
        let mut addr = server.to_owned();
        addr.append(":");
        push_decimal(&mut addr, port as u64);
        Ok(
            Hy2Adapter {
                name: name.to_owned(),
                addr,
                password: password.to_owned(),
                sni: effective.to_owned(),
                skip_cert_verify,
                ca_pem,
                obfs,
                up_bps,
                down_bps,
            },
        )
    }

    /// Masks a datagram in place, where the adapter obfuscates.
    pub fn obfs_apply(&self, buf: &mut Vec<u8>)
        ensures
            final(buf)@ == on_wire(self@.obfs_key, old(buf)@),
            final(buf)@.len() == old(buf)@.len(),
            self@.obfs_key is None ==> final(buf)@ == old(buf)@,
            self@.obfs_key matches Some(key) ==> forall|i: int|
                0 <= i < old(buf)@.len() ==> old(buf)@[i] ^ #[trigger] final(buf)@[i] == key[i % 16],
    {
        obfuscate(&self.obfs, buf)
    }

    /// The name of the proxy.
    pub fn name(&self) -> (r: &str)
        ensures
            r@ == self@.name,
    {
        self.name.as_str()
    }

    /// The kind of the proxy.
    pub fn adapter_type(&self) -> (r: AdapterType)
        ensures
            r == AdapterType::Hysteria2,
    {
        AdapterType::Hysteria2
    }

    /// The address of the server, with its port.
    pub fn addr(&self) -> (r: &str)
        ensures
            r@ == self@.addr,
    {
        self.addr.as_str()
    }

    /// The complaint about an address of the server that is none, with the
    /// reason given.
    pub fn server_addr_error(&self, why: &str) -> (r: String)
        ensures
            r@ == config_error(self@.name, "bad server addr: "@ + why@),
            r@ == "hysteria2["@ + self@.name + "]: "@ + ("bad server addr: "@ + why@),
    {
        let mut what = "bad server addr: ".to_owned();
        what.append(why);
        config_error_text(self.name.as_str(), what.as_str())
    }

    /// Whether the proxy carries UDP.
    pub fn support_udp(&self) -> (r: bool)
        ensures
            r,
    {
        true
    }

    /// The password, which is never empty.
    pub fn password(&self) -> (r: &str)
        ensures
            r@ == self@.password,
            r@.len() > 0,
    {
        proof {
            use_type_invariant(self);
        }
        self.password.as_str()
    }

    /// The name that the server has to prove.
    pub fn sni(&self) -> (r: &str)
        ensures
            r@ == self@.sni,
    {
        self.sni.as_str()
    }

    /// Whether the server's certificate goes unchecked.
    pub fn skip_cert_verify(&self) -> (r: bool)
        ensures
            r == self@.skip_cert_verify,
    {
        self.skip_cert_verify
    }

    /// The CA bundle, in PEM.
    pub fn ca_pem(&self) -> (r: Option<&[u8]>)
        ensures
            match r {
                Some(pem) => self@.ca_pem == Some(pem@),
                None => self@.ca_pem is None,
            },
    {
        match &self.ca_pem {
            Some(pem) => Some(pem.as_slice()),
            None => None,
        }
    }

    /// The obfuscation.
    pub fn obfs(&self) -> (r: &Option<SalamanderObfs>)
        ensures
            obfs_key(*r) == self@.obfs_key,
            *r is None ==> self@.obfs_key is None,
            *r matches Some(o) ==> self@.obfs_key == Some(o@),
    {
        &self.obfs
    }

    /// The upload bandwidth hint, in bits per second.
    pub fn up_bps(&self) -> (r: Option<u64>)
        ensures
            r == self@.up_bps,
    {
        self.up_bps
    }

    /// The download bandwidth hint, in bits per second.
    pub fn down_bps(&self) -> (r: Option<u64>)
        ensures
            r == self@.down_bps,
    {
        self.down_bps
    }
}

/// A configuration is accepted if and only if it has a password, and its
/// obfuscation is off or is `salamander` with a password of its own.
pub proof fn law_accepted_configurations(
    name: Seq<char>,
    server: Seq<char>,
    port: u16,
    password: Seq<char>,
    sni: Option<Seq<char>>,
    skip_cert_verify: bool,
    options: OptionsView,
)
    ensures
        configured(name, server, port, password, sni, skip_cert_verify, options) is Ok <==> {
            &&& password.len() > 0
            &&& {
                ||| options.obfs_type is None
                ||| options.obfs_type == Some(Seq::<char>::empty())
                ||| options.obfs_type == Some("salamander"@) && options.obfs_password is Some
                    && options.obfs_password->0.len() > 0
            }
        },
{
    reveal_strlit("salamander");
    if let Some(kind) = options.obfs_type {
        if kind.len() == 0 {
            assert(kind =~= Seq::<char>::empty());
        }
    }
}

/// An adapter keeps what it was configured with, each field its own, whatever
/// the others are.
pub proof fn law_configured_fields(
    name: Seq<char>,
    server: Seq<char>,
    port: u16,
    password: Seq<char>,
    sni: Option<Seq<char>>,
    skip_cert_verify: bool,
    options: OptionsView,
)
    ensures
        configured(name, server, port, password, sni, skip_cert_verify, options) matches Ok(a) ==> {
            &&& a.name == name
            &&& a.addr == server + ":"@ + decimal(port as nat)
            &&& a.password == password
            &&& a.skip_cert_verify == skip_cert_verify
            &&& a.ca_pem == options.ca_pem
            &&& a.up_bps == options.up_bps
            &&& a.down_bps == options.down_bps
            &&& a.sni == server || sni == Some(a.sni)
            &&& a.obfs_key is Some <==> options.obfs_type is Some && options.obfs_type->0.len() > 0
            &&& a.obfs_key is Some ==> a.obfs_key->0 == sha256_digest(
                encode_utf8(options.obfs_password->0),
            ).take(16)
        },
{
}

/// A configuration without a password is refused for that, before all else; one
/// with a password is refused for its obfuscation alone, by what is wrong with
/// it.
pub proof fn law_configuration_errors(
    name: Seq<char>,
    server: Seq<char>,
    port: u16,
    password: Seq<char>,
    sni: Option<Seq<char>>,
    skip_cert_verify: bool,
    options: OptionsView,
)
    ensures
        configured(name, server, port, password, sni, skip_cert_verify, options) matches Err(e)
            ==> {
            if password.len() == 0 {
                e == "hysteria2["@ + name + "]: "@ + "password must not be empty"@
            } else if options.obfs_type == Some("salamander"@) {
                e == "hysteria2["@ + name + "]: "@
                    + "obfs=salamander requires obfs-password to be set"@
            } else {
                &&& options.obfs_type is Some
                &&& e == "hysteria2["@ + name + "]: "@ + ("unsupported obfs type '"@
                    + options.obfs_type->0 + "'; only 'salamander' is supported"@)
            }
        },
{
    reveal_strlit("salamander");
}

/// The server has to prove the name that is configured for it; where that is
/// left out, or is nothing but white space, its own.
pub proof fn law_sni_defaults_to_server(server: Seq<char>, sni: Option<Seq<char>>)
    ensures
        sni is None ==> effective_sni(server, sni) == server,
        sni matches Some(s) ==> effective_sni(server, sni) == (if forall|i: int|
            0 <= i < s.len() ==> is_white_space(#[trigger] s[i]) {
            server
        } else {
            s
        }),
{
    if let Some(s) = sni {
        lemma_trim_blank(s);
    }
}

/// The bandwidth hints are kept and decide nothing: an adapter with other
/// hints differs from it in the hints alone.
pub proof fn law_hints_are_advisory(
    name: Seq<char>,
    server: Seq<char>,
    port: u16,
    password: Seq<char>,
    sni: Option<Seq<char>>,
    skip_cert_verify: bool,
    options: OptionsView,
    up: Option<u64>,
    down: Option<u64>,
)
    ensures
        ({
            let other = OptionsView { up_bps: up, down_bps: down, ..options };
            match (
                configured(name, server, port, password, sni, skip_cert_verify, options),
                configured(name, server, port, password, sni, skip_cert_verify, other),
            ) {
                (Ok(a), Ok(b)) => b == (AdapterView { up_bps: up, down_bps: down, ..a }),
                (Err(a), Err(b)) => a == b,
                _ => false,
            }
        }),
{
}

} // verus!
