//! The BOINC hosts to watch, read from an INI configuration: one section per host,
//! with its `host` address and its GUI RPC `password`.
use vstd::prelude::*;
use vstd::string::*;

verus! {

/// A configuration section as plain values: its name (`None` for the general
/// section) and its `key = value` properties in the order they were written.
pub type SectionView = (Option<Seq<char>>, Seq<(Seq<char>, Seq<char>)>);

/// A section of the parsed configuration.
#[derive(Debug)]
pub struct ConfigSection {
    pub name: Option<String>,
    pub properties: Vec<(String, String)>,
}

impl DeepView for ConfigSection {
    type V = SectionView;

    open spec fn deep_view(&self) -> SectionView {
        (self.name.deep_view(), self.properties.deep_view())
    }
}

#[verifier::external_type_specification]
#[verifier::external_body]
pub struct ExIniParseError(ini::ParseError);

/// The sections that `ini::Ini::load_from_str` reads from `text`, or `None` where it
/// fails.
pub uninterp spec fn ini_sections(text: Seq<char>) -> Option<Seq<SectionView>>;

/// Parses INI text with `ini::Ini::load_from_str` (default options) and lists its
/// sections as `Ini::iter` walks them, each with its properties as
/// `Properties::iter` walks them. The contract only ties the outcome to `text`
/// through `ini_sections`: the INI grammar itself is not stated.
#[verifier::external_body]
fn load_from_str(text: &str) -> (r: Result<Vec<ConfigSection>, ini::ParseError>)
    ensures
        r is Err <==> ini_sections(text@) is None,
        r matches Ok(sections) ==> ini_sections(text@) == Some(sections.deep_view()),
{
    let conf = ini::Ini::load_from_str(text)?;
    let mut sections = Vec::new();
    for (name, props) in conf.iter() {
        let mut properties = Vec::new();
        for (key, value) in props.iter() {
            properties.push((key.to_string(), value.to_string()));
        }
        sections.push(ConfigSection { name: name.map(|n| n.to_string()), properties });
    }
    Ok(sections)
}

/// A host's entry, as plain values.
pub struct EndpointView {
    pub name: Option<Seq<char>>,
    pub host: Option<Seq<char>>,
    pub password: Option<Seq<char>>,
    pub last_checked: Option<u64>,
    pub is_down: Option<bool>,
}

/// A BOINC host to watch.
#[derive(Debug, Clone)]
pub struct Endpoint {
    pub name: Option<String>,
    host: Option<String>,
    password: Option<String>,
    pub last_checked: Option<u64>,
    pub is_down: Option<bool>,
}

impl View for Endpoint {
    type V = EndpointView;

    closed spec fn view(&self) -> EndpointView {
        EndpointView {
            name: self.name.deep_view(),
            host: self.host.deep_view(),
            password: self.password.deep_view(),
            last_checked: self.last_checked,
            is_down: self.is_down,
        }
    }
}

impl Endpoint {
    /// Whether an address is configured, which `host` needs.
    pub fn has_host(&self) -> (r: bool)
        ensures
            r == self@.host is Some,
    {
        self.host.is_some()
    }

    /// Whether a password is configured, which `password` needs.
    pub fn has_password(&self) -> (r: bool)
        ensures
            r == self@.password is Some,
    {
        self.password.is_some()
    }

    /// Sets whether the host is known to be down. The same as writing the public
    /// field, for callers outside this module, to whom `Endpoint` is opaque.
    pub fn set_is_down(&mut self, is_down: Option<bool>)
        ensures
            final(self)@ == (EndpointView { is_down, ..old(self)@ }),
    {
        self.is_down = is_down;
    }

    /// Sets when the host was last checked. The same as writing the public field,
    /// for callers outside this module, to whom `Endpoint` is opaque.
    pub fn set_last_checked(&mut self, last_checked: Option<u64>)
        ensures
            final(self)@ == (EndpointView { last_checked, ..old(self)@ }),
    {
        self.last_checked = last_checked;
    }

    /// The host's address.
    pub fn host(&self) -> (r: Option<String>)
        requires
            self@.host is Some,
        ensures
            r is Some,
            r->0@ == self@.host->0,
    {
        match &self.host {
            Some(host) => Some(host.clone()),
            None => None,
        }
    }

    /// The host's GUI RPC password.
    pub fn password(&self) -> (r: Option<&str>)
        requires
            self@.password is Some,
        ensures
            r is Some,
            r->0@ == self@.password->0,
    {
        match &self.password {
            Some(password) => Some(password.as_str()),
            None => None,
        }
    }
}

/// The entries of `s` by name; a later entry replaces an earlier one of the same name.
pub open spec fn entries_map(s: Seq<EndpointView>) -> Map<Option<Seq<char>>, EndpointView>
    decreases s.len(),
{
    if s.len() == 0 {
        Map::empty()
    } else {
        entries_map(s.drop_last()).insert(s.last().name, s.last())
    }
}

/// No two entries of `s` share a name.
pub open spec fn names_distinct(s: Seq<EndpointView>) -> bool {
    forall|i: int, j: int| 0 <= i < s.len() && 0 <= j < s.len() && i != j ==> s[i].name != s[j].name
}

/// The hosts to watch, one entry per name.
#[derive(Debug)]
pub struct Endpoints {
    pub checkable: Vec<Endpoint>,
}

impl Endpoints {
    pub closed spec fn entries(&self) -> Seq<EndpointView> {
        self.checkable@.map_values(|e: Endpoint| e@)
    }

    /// No two entries share a name.
    pub closed spec fn wf(&self) -> bool {
        names_distinct(self.entries())
    }

    pub fn new(&self) {
    }
}

impl View for Endpoints {
    type V = Map<Option<Seq<char>>, EndpointView>;

    closed spec fn view(&self) -> Map<Option<Seq<char>>, EndpointView> {
        entries_map(self.entries())
    }
}

pub proof fn lemma_entries_map_absent(s: Seq<EndpointView>, k: Option<Seq<char>>)
    requires
        forall|i: int| 0 <= i < s.len() ==> s[i].name != k,
    ensures
        !entries_map(s).contains_key(k),
    decreases s.len(),
{
    if s.len() > 0 {
        lemma_entries_map_absent(s.drop_last(), k);
    }
}

pub proof fn lemma_entries_map_at(s: Seq<EndpointView>, i: int)
    requires
        names_distinct(s),
        0 <= i < s.len(),
    ensures
        entries_map(s).contains_key(s[i].name),
        entries_map(s)[s[i].name] == s[i],
    decreases s.len(),
{
    if i < s.len() - 1 {
        lemma_entries_map_at(s.drop_last(), i);
    }
}

pub proof fn lemma_entries_map_update(s: Seq<EndpointView>, i: int, e: EndpointView)
    requires
        names_distinct(s),
        0 <= i < s.len(),
        s[i].name == e.name,
    ensures
        entries_map(s.update(i, e)) == entries_map(s).insert(e.name, e),
        names_distinct(s.update(i, e)),
    decreases s.len(),
{
    let u = s.update(i, e);
    if i == s.len() - 1 {
        assert(u.drop_last() =~= s.drop_last());
        assert(entries_map(u) =~= entries_map(s).insert(e.name, e));
    } else {
        assert(u.drop_last() =~= s.drop_last().update(i, e));
        lemma_entries_map_update(s.drop_last(), i, e);
        assert(s.last().name != e.name);
        assert(entries_map(u) =~= entries_map(s).insert(e.name, e));
    }
}

pub proof fn lemma_entries_map_contains(s: Seq<EndpointView>, k: Option<Seq<char>>)
    requires
        entries_map(s).contains_key(k),
    ensures
        exists|i: int| 0 <= i < s.len() && s[i].name == k,
{
    if forall|i: int| 0 <= i < s.len() ==> s[i].name != k {
        lemma_entries_map_absent(s, k);
    }
}

fn name_eq(a: &Option<String>, b: &Option<String>) -> (r: bool)
    ensures
        r == (a.deep_view() == b.deep_view()),
{
    match (a, b) {
        (Some(x), Some(y)) => *x == *y,
        (None, None) => true,
        _ => false,
    }
}

fn clone_name(a: &Option<String>) -> (r: Option<String>)
    ensures
        r.deep_view() == a.deep_view(),
{
    match a {
        Some(x) => Some(x.clone()),
        None => None,
    }
}

/// Puts `e` in `checkable`: in place of the entry of the same name, if there is
/// one, else at the end.
fn upsert(checkable: &mut Vec<Endpoint>, e: Endpoint)
    requires
        names_distinct(old(checkable)@.map_values(|x: Endpoint| x@)),
    ensures
        names_distinct(final(checkable)@.map_values(|x: Endpoint| x@)),
        entries_map(final(checkable)@.map_values(|x: Endpoint| x@)) == entries_map(
            old(checkable)@.map_values(|x: Endpoint| x@),
        ).insert(e@.name, e@),
{
    let ghost s = old(checkable)@.map_values(|x: Endpoint| x@);
    let mut i: usize = 0;
    while i < checkable.len()
        invariant
            checkable@ == old(checkable)@,
            s == old(checkable)@.map_values(|x: Endpoint| x@),
            names_distinct(s),
            0 <= i <= checkable.len(),
            forall|j: int| 0 <= j < i ==> s[j].name != e@.name,
        decreases checkable.len() - i,
    {
        if name_eq(&checkable[i].name, &e.name) {
            let ghost ev = e@;
            assert(s[i as int].name == ev.name);
            checkable[i] = e;
            proof {
                lemma_entries_map_update(s, i as int, ev);
                assert(checkable@.map_values(|x: Endpoint| x@) =~= s.update(i as int, ev));
            }
            return;
        }
        i = i + 1;
    }
    let ghost ev = e@;
    checkable.push(e);
    proof {
        let t = checkable@.map_values(|x: Endpoint| x@);
        assert(t =~= s.push(ev));
        assert(t.drop_last() =~= s);
    }
}

/// The property key that names a host's address.
pub open spec fn host_key() -> Seq<char> {
    seq!['h', 'o', 's', 't']
}

/// The property key that names a host's GUI RPC password.
pub open spec fn password_key() -> Seq<char> {
    seq!['p', 'a', 's', 's', 'w', 'o', 'r', 'd']
}

/// What is appended to a configured address: the GUI RPC port of BOINC.
pub open spec fn rpc_port_suffix() -> Seq<char> {
    seq![':', '3', '1', '4', '1', '6']
}

pub open spec fn handled_key(key: Seq<char>) -> bool {
    key == host_key() || key == password_key()
}

/// Every property of every section is a `host` or a `password`.
pub open spec fn all_keys_handled(s: Seq<SectionView>) -> bool {
    forall|i: int, j: int|
        0 <= i < s.len() && 0 <= j < s[i].1.len() ==> handled_key(#[trigger] s[i].1[j].0)
}

/// Property `j` of section `i` is the first, in reading order, that is neither a
/// `host` nor a `password`.
pub open spec fn is_first_unhandled(s: Seq<SectionView>, i: int, j: int) -> bool {
    &&& 0 <= i < s.len()
    &&& 0 <= j < s[i].1.len()
    &&& !handled_key(s[i].1[j].0)
    &&& forall|i2: int, j2: int|
        0 <= i2 < i && 0 <= j2 < s[i2].1.len() ==> handled_key(#[trigger] s[i2].1[j2].0)
    &&& forall|j2: int| 0 <= j2 < j ==> handled_key(#[trigger] s[i].1[j2].0)
}

/// A section's entry before its properties are read: named after the section,
/// not known to be down, never checked.
pub open spec fn fresh_endpoint(name: Option<Seq<char>>) -> EndpointView {
    EndpointView { name, host: None, password: None, last_checked: None, is_down: Some(false) }
}

/// One property read into an entry: `host` sets the address, with the RPC port
/// appended; `password` sets the password.
pub open spec fn apply_property(e: EndpointView, key: Seq<char>, value: Seq<char>) -> EndpointView {
    if key == host_key() {
        EndpointView { host: Some(value + rpc_port_suffix()), ..e }
    } else if key == password_key() {
        EndpointView { password: Some(value), ..e }
    } else {
        e
    }
}

pub open spec fn apply_properties(
    e: EndpointView,
    props: Seq<(Seq<char>, Seq<char>)>,
) -> EndpointView
    decreases props.len(),
{
    if props.len() == 0 {
        e
    } else {
        let p = props.last();
        apply_property(apply_properties(e, props.drop_last()), p.0, p.1)
    }
}

/// Reading properties never renames an entry, nor touches when it was checked or
/// whether it is down.
pub proof fn lemma_apply_properties_keeps(e: EndpointView, props: Seq<(Seq<char>, Seq<char>)>)
    ensures
        apply_properties(e, props).name == e.name,
        apply_properties(e, props).last_checked == e.last_checked,
        apply_properties(e, props).is_down == e.is_down,
    decreases props.len(),
{
    if props.len() > 0 {
        lemma_apply_properties_keeps(e, props.drop_last());
    }
}

/// The entry that a section describes.
pub open spec fn section_endpoint(section: SectionView) -> EndpointView {
    apply_properties(fresh_endpoint(section.0), section.1)
}

/// The entries that a configuration describes, by section name; a later section
/// replaces an earlier one of the same name.
pub open spec fn config_endpoints(sections: Seq<SectionView>) -> Map<
    Option<Seq<char>>,
    EndpointView,
>
    decreases sections.len(),
{
    if sections.len() == 0 {
        Map::empty()
    } else {
        config_endpoints(sections.drop_last()).insert(
            sections.last().0,
            section_endpoint(sections.last()),
        )
    }
}

/// Builds the entries of a parsed configuration (its properties must all be
/// `host` or `password`).
pub fn endpoints_from_sections(sections: &Vec<ConfigSection>) -> (r: Endpoints)
    requires
        all_keys_handled(sections.deep_view()),
    ensures
        r.wf(),
        r@ == config_endpoints(sections.deep_view()),
{
    let ghost dv = sections.deep_view();
    let host_key_string = String::from_str("host");
    let password_key_string = String::from_str("password");
    proof {
        reveal_strlit("host");
        reveal_strlit("password");
        reveal_strlit(":31416");
        assert(host_key_string@ =~= host_key());
        assert(password_key_string@ =~= password_key());
    }
    let mut checkable: Vec<Endpoint> = Vec::new();
    let mut i: usize = 0;
    proof {
        assert(checkable@.map_values(|x: Endpoint| x@) =~= Seq::<EndpointView>::empty());
        assert(dv.take(0) =~= Seq::<SectionView>::empty());
    }
    while i < sections.len()
        invariant
            dv == sections.deep_view(),
            all_keys_handled(dv),
            host_key_string@ == host_key(),
            password_key_string@ == password_key(),
            0 <= i <= sections.len(),
            names_distinct(checkable@.map_values(|x: Endpoint| x@)),
            entries_map(checkable@.map_values(|x: Endpoint| x@)) == config_endpoints(
                dv.take(i as int),
            ),
        decreases sections.len() - i,
    {
        let section = &sections[i];
        let ghost sv = dv[i as int];
        assert(section.deep_view() == sv);
        let mut endpoint = Endpoint {
            name: clone_name(&section.name),
            host: None,
            password: None,
            last_checked: None,
            is_down: Some(false),
        };
        let mut j: usize = 0;
        proof {
            assert(sv.1.take(0) =~= Seq::<(Seq<char>, Seq<char>)>::empty());
        }
        while j < section.properties.len()
            invariant
                dv == sections.deep_view(),
                all_keys_handled(dv),
                0 <= i < sections.len(),
                section == &sections[i as int],
                sv == dv[i as int],
                sv == section.deep_view(),
                host_key_string@ == host_key(),
                password_key_string@ == password_key(),
                0 <= j <= section.properties.len(),
                endpoint@ == apply_properties(fresh_endpoint(sv.0), sv.1.take(j as int)),
            decreases section.properties.len() - j,
        {
            let key = &section.properties[j].0;
            let value = &section.properties[j].1;
            assert(sv.1[j as int] == (key@, value@));
            assert(handled_key(sv.1[j as int].0));
            assert(sv.1.take(j + 1).drop_last() =~= sv.1.take(j as int));
            assert(sv.1.take(j + 1).last() == sv.1[j as int]);
            proof {
                reveal_strlit(":31416");
            }
            let ghost before = endpoint@;
            if *key == host_key_string {
                let mut host = value.clone();
                host.append(":31416");
                assert(host@ =~= value@ + rpc_port_suffix());
                endpoint.host = Some(host);
            } else if *key == password_key_string {
                endpoint.password = Some(value.clone());
            }
            assert(endpoint@ == apply_property(before, key@, value@));
            j = j + 1;
        }
        assert(sv.1.take(j as int) =~= sv.1);
        assert(endpoint@ == section_endpoint(sv));
        proof {
            lemma_apply_properties_keeps(fresh_endpoint(sv.0), sv.1);
        }
        upsert(&mut checkable, endpoint);
        assert(dv.take(i + 1).drop_last() =~= dv.take(i as int));
        assert(dv.take(i + 1).last() == sv);
        i = i + 1;
    }
    assert(dv.take(i as int) =~= dv);
    Endpoints { checkable }
}

/// The first property, in reading order, that is neither a `host` nor a
/// `password`, if any.
pub fn first_unhandled_key(sections: &Vec<ConfigSection>) -> (r: Option<String>)
    ensures
        r is None <==> all_keys_handled(sections.deep_view()),
        r matches Some(k) ==> exists|i: int, j: int|
            is_first_unhandled(sections.deep_view(), i, j) && sections.deep_view()[i].1[j].0
                == k@,
{
    let ghost dv = sections.deep_view();
    let host_key_string = String::from_str("host");
    let password_key_string = String::from_str("password");
    proof {
        reveal_strlit("host");
        reveal_strlit("password");
        assert(host_key_string@ =~= host_key());
        assert(password_key_string@ =~= password_key());
    }
    let mut i: usize = 0;
    while i < sections.len()
        invariant
            dv == sections.deep_view(),
            host_key_string@ == host_key(),
            password_key_string@ == password_key(),
            0 <= i <= sections.len(),
            forall|i2: int, j2: int|
                0 <= i2 < i && 0 <= j2 < dv[i2].1.len() ==> handled_key(#[trigger] dv[i2].1[j2].0),
        decreases sections.len() - i,
    {
        let section = &sections[i];
        assert(section.deep_view() == dv[i as int]);
        let mut j: usize = 0;
        while j < section.properties.len()
            invariant
                dv == sections.deep_view(),
                0 <= i < sections.len(),
                section == &sections[i as int],
                section.deep_view() == dv[i as int],
                host_key_string@ == host_key(),
                password_key_string@ == password_key(),
                0 <= j <= section.properties.len(),
                forall|i2: int, j2: int|
                    0 <= i2 < i && 0 <= j2 < dv[i2].1.len() ==> handled_key(
                        #[trigger] dv[i2].1[j2].0,
                    ),
                forall|j2: int| 0 <= j2 < j ==> handled_key(#[trigger] dv[i as int].1[j2].0),
            decreases section.properties.len() - j,
        {
            let key = &section.properties[j].0;
            assert(dv[i as int].1[j as int].0 == key@);
            if !(*key == host_key_string) && !(*key == password_key_string) {
                assert(is_first_unhandled(dv, i as int, j as int));
                return Some(key.clone());
            }
            j = j + 1;
        }
        i = i + 1;
    }
    None
}

/// Why a configuration yields no hosts.
#[derive(Debug)]
pub enum ConfigError {
    /// The text is not INI, as `ini::Ini::load_from_str` reads it.
    Parse(ini::ParseError),
    /// A property other than `host` or `password`: the first such key.
    UnhandledKey(String),
}

/// Reads the hosts to watch from the text of the configuration file: each section
/// becomes the entry of that name.
pub fn get_endpoints(text: &str) -> (r: Result<Endpoints, ConfigError>)
    ensures
        ini_sections(text@) is None <==> r matches Err(ConfigError::Parse(_)),
        ini_sections(text@) matches Some(s) ==> (all_keys_handled(s) <==> r is Ok),
        r matches Ok(e) ==> {
            &&& e.wf()
            &&& ini_sections(text@) matches Some(s)
            &&& e@ == config_endpoints(s)
        },
        r matches Err(ConfigError::UnhandledKey(k)) ==> {
            &&& ini_sections(text@) matches Some(s)
            &&& exists|i: int, j: int| is_first_unhandled(s, i, j) && s[i].1[j].0 == k@
        },
{
    match load_from_str(text) {
        Err(e) => Err(ConfigError::Parse(e)),
        Ok(sections) => match first_unhandled_key(&sections) {
            Some(key) => Err(ConfigError::UnhandledKey(key)),
            None => Ok(endpoints_from_sections(&sections)),
        },
    }
}

/// How long a host that is down is left alone before it is asked again, in seconds.
pub const RECHECK_AFTER_SECONDS: u64 = 90;

impl Endpoint {
    /// Whether the host is to be asked for its tasks at time `now` (UNIX seconds):
    /// always, unless it is down and was last checked at most 90 seconds ago.
    pub fn needs_refresh(&self, now: u64) -> (r: bool)
        requires
            self@.is_down is Some,
            self@.is_down == Some(true) ==> (self@.last_checked matches Some(t) && t <= now),
        ensures
            r == !(self@.is_down == Some(true) && now - self@.last_checked->0
                <= RECHECK_AFTER_SECONDS),
    {
        match (self.is_down, self.last_checked) {
            (Some(true), Some(last_checked)) => now - last_checked > RECHECK_AFTER_SECONDS,
            _ => true,
        }
    }
}

impl Endpoints {
    /// Records that the host named `name` answered at time `now`.
    pub fn mark_checked(&mut self, name: &Option<String>, now: u64)
        requires
            old(self).wf(),
            old(self)@.contains_key(name.deep_view()),
        ensures
            final(self).wf(),
            final(self)@ == old(self)@.insert(
                name.deep_view(),
                EndpointView { last_checked: Some(now), ..old(self)@[name.deep_view()] },
            ),
    {
        let ghost s = old(self).entries();
        proof {
            lemma_entries_map_contains(s, name.deep_view());
        }
        let mut i: usize = 0;
        while i < self.checkable.len()
            invariant
                self.checkable@ == old(self).checkable@,
                s == self.entries(),
                names_distinct(s),
                0 <= i <= self.checkable.len(),
                exists|k: int| i <= k < s.len() && s[k].name == name.deep_view(),
            decreases self.checkable.len() - i,
        {
            if name_eq(&self.checkable[i].name, name) {
                proof {
                    lemma_entries_map_at(s, i as int);
                }
                let ghost e = EndpointView { last_checked: Some(now), ..s[i as int] };
                self.checkable[i].last_checked = Some(now);
                proof {
                    lemma_entries_map_update(s, i as int, e);
                    assert(self.entries() =~= s.update(i as int, e));
                }
                return;
            }
            i = i + 1;
        }
    }
}

} // verus!

verus! {

/// The configuration has an entry for each section name and for nothing else; every
/// entry carries its own name, is not known to be down and has never been checked.
pub proof fn lemma_config_entries(sections: Seq<SectionView>, k: Option<Seq<char>>)
    ensures
        config_endpoints(sections).contains_key(k) <==> exists|i: int|
            0 <= i < sections.len() && (#[trigger] sections[i]).0 == k,
        config_endpoints(sections).contains_key(k) ==> {
            let e = config_endpoints(sections)[k];
            &&& e.name == k
            &&& e.is_down == Some(false)
            &&& e.last_checked is None
        },
    decreases sections.len(),
{
    if sections.len() > 0 {
        let init = sections.drop_last();
        lemma_config_entries(init, k);
        lemma_apply_properties_keeps(fresh_endpoint(sections.last().0), sections.last().1);
        if exists|i: int| 0 <= i < init.len() && (#[trigger] init[i]).0 == k {
            let i = choose|i: int| 0 <= i < init.len() && (#[trigger] init[i]).0 == k;
            assert(sections[i] == init[i]);
        }
        if exists|i: int| 0 <= i < sections.len() && (#[trigger] sections[i]).0 == k {
            let i = choose|i: int| 0 <= i < sections.len() && (#[trigger] sections[i]).0 == k;
            if i < sections.len() - 1 {
                assert(init[i] == sections[i]);
            }
        }
    }
}

/// Where sections share a name, the last of them decides the entry.
pub proof fn lemma_config_last_section_wins(sections: Seq<SectionView>, i: int)
    requires
        0 <= i < sections.len(),
        forall|j: int| i < j < sections.len() ==> (#[trigger] sections[j]).0 != sections[i].0,
    ensures
        config_endpoints(sections)[sections[i].0] == section_endpoint(sections[i]),
    decreases sections.len(),
{
    if i < sections.len() - 1 {
        let init = sections.drop_last();
        assert(sections.last().0 != sections[i].0);
        assert forall|j: int| i < j < init.len() implies (#[trigger] init[j]).0 != init[i].0 by {
            assert(init[j] == sections[j]);
        }
        lemma_config_last_section_wins(init, i);
    }
}

/// Every address that an entry holds is a configured `host` value with the GUI RPC
/// port appended.
pub proof fn lemma_host_has_port(e: EndpointView, props: Seq<(Seq<char>, Seq<char>)>)
    requires
        e.host is None,
    ensures
        apply_properties(e, props).host matches Some(h) ==> exists|j: int|
            0 <= j < props.len() && (#[trigger] props[j]).0 == host_key() && h == props[j].1
                + rpc_port_suffix(),
    decreases props.len(),
{
    if props.len() > 0 {
        let init = props.drop_last();
        lemma_host_has_port(e, init);
        let h_opt = apply_properties(e, props).host;
        if props.last().0 == host_key() {
            assert(props[props.len() - 1] == props.last());
        } else if h_opt is Some {
            let j = choose|j: int|
                0 <= j < init.len() && (#[trigger] init[j]).0 == host_key() && h_opt->0
                    == init[j].1 + rpc_port_suffix();
            assert(props[j] == init[j]);
        }
    }
}

} // verus!

verus! {

/// Property `j` is the last one in `props` with key `key`.
pub open spec fn last_with_key(props: Seq<(Seq<char>, Seq<char>)>, key: Seq<char>, j: int) -> bool {
    &&& 0 <= j < props.len()
    &&& props[j].0 == key
    &&& forall|j2: int| j < j2 < props.len() ==> (#[trigger] props[j2]).0 != key
}

/// Reading a section's properties in any order: the address is set exactly when
/// some `host` is given, to the last one given with the GUI RPC port appended; the
/// password is set exactly when some `password` is given, to the last one given.
/// Neither key touches what the other sets.
pub proof fn lemma_properties_fields(e: EndpointView, props: Seq<(Seq<char>, Seq<char>)>)
    requires
        e.host is None,
        e.password is None,
    ensures
        apply_properties(e, props).host is Some <==> exists|j: int|
            0 <= j < props.len() && (#[trigger] props[j]).0 == host_key(),
        apply_properties(e, props).host matches Some(h) ==> exists|j: int|
            last_with_key(props, host_key(), j) && h == props[j].1 + rpc_port_suffix(),
        apply_properties(e, props).password is Some <==> exists|j: int|
            0 <= j < props.len() && (#[trigger] props[j]).0 == password_key(),
        apply_properties(e, props).password matches Some(p) ==> exists|j: int|
            last_with_key(props, password_key(), j) && p == props[j].1,
    decreases props.len(),
{
    if props.len() > 0 {
        let init = props.drop_last();
        let n = props.len() - 1;
        lemma_properties_fields(e, init);
        assert(props[n] == props.last());
        assert forall|j: int| 0 <= j < init.len() implies init[j] == props[j] by {}
        assert(host_key() != password_key());
        let r = apply_properties(e, props);
        let ri = apply_properties(e, init);
        if props.last().0 == host_key() {
            assert(last_with_key(props, host_key(), n));
        } else {
            if ri.host is Some {
                let j = choose|j: int|
                    last_with_key(init, host_key(), j) && ri.host->0 == init[j].1 + rpc_port_suffix();
                assert(last_with_key(props, host_key(), j));
            }
            if exists|j: int| 0 <= j < props.len() && (#[trigger] props[j]).0 == host_key() {
                let j = choose|j: int| 0 <= j < props.len() && (#[trigger] props[j]).0 == host_key();
                assert(init[j].0 == host_key());
            }
        }
        if props.last().0 == password_key() {
            assert(last_with_key(props, password_key(), n));
        } else {
            if ri.password is Some {
                let j = choose|j: int|
                    last_with_key(init, password_key(), j) && ri.password->0 == init[j].1;
                assert(last_with_key(props, password_key(), j));
            }
            if exists|j: int| 0 <= j < props.len() && (#[trigger] props[j]).0 == password_key() {
                let j = choose|j: int|
                    0 <= j < props.len() && (#[trigger] props[j]).0 == password_key();
                assert(init[j].0 == password_key());
            }
        }
    }
}

/// What a section gives its entry: its name, not down, never checked, and the last
/// `host` and `password` it lists, whichever comes first.
pub proof fn lemma_section_endpoint_fields(section: SectionView)
    ensures
        section_endpoint(section).name == section.0,
        section_endpoint(section).is_down == Some(false),
        section_endpoint(section).last_checked is None,
        section_endpoint(section).host is Some <==> exists|j: int|
            0 <= j < section.1.len() && (#[trigger] section.1[j]).0 == host_key(),
        section_endpoint(section).host matches Some(h) ==> exists|j: int|
            last_with_key(section.1, host_key(), j) && h == section.1[j].1 + rpc_port_suffix(),
        section_endpoint(section).password is Some <==> exists|j: int|
            0 <= j < section.1.len() && (#[trigger] section.1[j]).0 == password_key(),
        section_endpoint(section).password matches Some(p) ==> exists|j: int|
            last_with_key(section.1, password_key(), j) && p == section.1[j].1,
{
    lemma_apply_properties_keeps(fresh_endpoint(section.0), section.1);
    lemma_properties_fields(fresh_endpoint(section.0), section.1);
}

} // verus!
