//! Checking the configuration and picking an environment.
//!
//! First the file is checked on its own. Then an environment is picked and
//! the API key looked up, which gives a [`ResolvedConfig`].

pub mod schema;

pub use schema::{
    ApplyOrder, ConfigFile, Defaults, Environment, EnvironmentConfig, NamingConfig,
    ResourceConfig, ResourcesConfig,
};

use crate::braze::opt_str;
use crate::config::schema::EnvironmentView;
use crate::endpoint::{is_web, Endpoint};
use crate::error::Error;
use crate::order::{last_named, lemma_last_named_some, names_of};
use crate::text::{
    decimal, decimal_text, is_shown, join, join_text, lemma_shown_between, opt_text, owned, strs,
    trim, trim_text,
};
use vstd::prelude::*;

verus! {

/// An API key. It has no `Debug`, so that it cannot end up in a log by way of
/// a value that holds it.
pub struct ApiKey {
    text: String,
}

impl View for ApiKey {
    type V = Seq<char>;

    closed spec fn view(&self) -> Seq<char> {
        self.text@
    }
}

impl ApiKey {
    pub fn new(text: String) -> (r: ApiKey)
        ensures
            r@ == text@,
    {
        ApiKey { text }
    }

    /// The key in the clear.
    pub fn expose_secret(&self) -> (r: &str)
        ensures
            r@ == self@,
    {
        self.text.as_str()
    }
}

/// A configuration for one environment, with the API key.
pub struct ResolvedConfig {
    pub environment_name: String,
    pub api_endpoint: Endpoint,
    pub api_key: ApiKey,
    pub resources: ResourcesConfig,
    pub naming: NamingConfig,
}

/// The problem with an environment, if it has one.
pub open spec fn environment_problem(e: EnvironmentView) -> Option<Seq<char>> {
    if trim(e.api_key_env).len() == 0 {
        Some("environment '"@ + e.name + "': api_key_env must not be empty"@)
    } else if !is_web(e.api_endpoint) {
        Some(
            "environment '"@ + e.name + "': api_endpoint must use http or https (got '"@
                + e.api_endpoint.scheme + "')"@,
        )
    } else {
        None
    }
}

/// The problem with the first environment that has one.
pub open spec fn first_environment_problem(es: Seq<EnvironmentView>) -> Option<Seq<char>>
    decreases es.len(),
{
    if es.len() == 0 {
        None
    } else {
        match environment_problem(es[0]) {
            Some(m) => Some(m),
            None => first_environment_problem(es.drop_first()),
        }
    }
}

/// The environment to use: the one asked for, else the usual one.
pub open spec fn environment_name(cfg: ConfigFile, wanted: Option<Seq<char>>) -> Seq<char> {
    match wanted {
        Some(n) => n,
        None => cfg.default_environment@,
    }
}

/// The environment of a name.
pub open spec fn environment_named(cfg: ConfigFile, name: Seq<char>) -> Option<EnvironmentView> {
    last_named::<Environment>(cfg.environments@, name)
}

/// What is wrong with the file on its own.
pub open spec fn static_problem(cfg: ConfigFile) -> Option<Seq<char>> {
    if cfg.version != 1 {
        Some(
            "unsupported config version "@ + decimal(cfg.version as nat)
                + " (this binary supports version 1; see IMPLEMENTATION.md §2.5 for the forward-compat policy)"@,
        )
    } else if environment_named(cfg, cfg.default_environment@) is None {
        Some(
            "default_environment '"@ + cfg.default_environment@
                + "' is not declared in the environments map"@,
        )
    } else {
        first_environment_problem(cfg.environments@)
    }
}

/// What is said of an environment that is not declared.
pub open spec fn unknown_environment(cfg: ConfigFile, name: Seq<char>) -> Seq<char> {
    "unknown environment '"@ + name + "'; declared: ["@ + join(
        names_of::<Environment>(cfg.environments@),
        ", "@,
    ) + "]"@
}

/// A configuration was resolved for an environment with a key.
pub open spec fn resolves_to(
    cfg: ConfigFile,
    name: Seq<char>,
    env: EnvironmentView,
    key: Seq<char>,
    r: ResolvedConfig,
) -> bool {
    &&& r.environment_name@ == name
    &&& r.api_endpoint@ == env.api_endpoint
    &&& r.api_key@ == key
    &&& r.resources == cfg.resources
    &&& r.naming == cfg.naming
}

/// What resolving gives, once the variable of the environment was read.
pub open spec fn resolution(
    cfg: ConfigFile,
    wanted: Option<Seq<char>>,
    key: Option<Seq<char>>,
    r: Result<ResolvedConfig, Error>,
) -> bool {
    let name = environment_name(cfg, wanted);
    match environment_named(cfg, name) {
        None => r matches Err(Error::Config(m)) && m@ == unknown_environment(cfg, name),
        Some(env) => match key {
            None => r matches Err(Error::MissingEnv(v)) && v@ == env.api_key_env,
            Some(k) => if k.len() == 0 {
                r matches Err(Error::Config(m)) && m@ == "environment variable '"@
                    + env.api_key_env + "' is set but empty"@
            } else {
                r matches Ok(c) && resolves_to(cfg, name, env, k, c)
            },
        },
    }
}

/// What is found by name is one of the environments.
proof fn lemma_environment_listed(es: Seq<EnvironmentView>, name: Seq<char>)
    requires
        last_named::<Environment>(es, name) is Some,
        first_environment_problem(es) is None,
    ensures
        environment_problem(last_named::<Environment>(es, name)->0) is None,
{
    lemma_no_problems(es);
    lemma_last_named_some::<Environment>(es, name);
}

/// A list without a first problem has none.
proof fn lemma_no_problems(es: Seq<EnvironmentView>)
    requires
        first_environment_problem(es) is None,
    ensures
        forall|i: int| 0 <= i < es.len() ==> environment_problem(#[trigger] es[i]) is None,
    decreases es.len(),
{
    if es.len() > 0 {
        lemma_no_problems(es.drop_first());
        assert forall|i: int| 0 <= i < es.len() implies environment_problem(
            #[trigger] es[i],
        ) is None by {
            if i > 0 {
                assert(es.drop_first()[i - 1] == es[i]);
            }
        }
    }
}

/// A configuration that passed its check resolves to an address of the web
/// only, so that a path can be put behind it.
pub proof fn checked_config_resolves_to_web(
    cfg: ConfigFile,
    wanted: Option<Seq<char>>,
    key: Option<Seq<char>>,
    r: Result<ResolvedConfig, Error>,
)
    requires
        static_problem(cfg) is None,
        resolution(cfg, wanted, key, r),
        r is Ok,
    ensures
        is_web(r->Ok_0.api_endpoint@),
        r->Ok_0.api_key@.len() > 0,
{
    lemma_environment_listed(cfg.environments@, environment_name(cfg, wanted));
}

/// A configuration that passed its check always has an environment to use
/// where none is asked for.
pub proof fn checked_config_has_usual_environment(cfg: ConfigFile)
    requires
        static_problem(cfg) is None,
    ensures
        environment_named(cfg, environment_name(cfg, None)) is Some,
{
}

impl ConfigFile {
    /// Checks the file on its own: its version, that the usual environment is
    /// declared, and that every environment names a variable and an address
    /// of the web.
    pub fn validate_static(&self) -> (r: Result<(), Error>)
        ensures
            match r {
                Ok(_) => static_problem(*self) is None,
                Err(Error::Config(m)) => static_problem(*self) == Some(m@),
                Err(_) => false,
            },
    {
        if self.version != 1 {
            let mut m = owned("unsupported config version ");
            m.push_str(decimal_text(self.version as u64).as_str());
            m.push_str(
                " (this binary supports version 1; see IMPLEMENTATION.md §2.5 for the forward-compat policy)",
            );
            return Err(Error::Config(m));
        }
        if self.environments.get(self.default_environment.as_str()).is_none() {
            let mut m = owned("default_environment '");
            m.push_str(self.default_environment.as_str());
            m.push_str("' is not declared in the environments map");
            return Err(Error::Config(m));
        }
        let ghost es = self.environments@;
        let mut i: usize = 0;
        assert(es.skip(0) =~= es);
        while i < self.environments.len()
            invariant
                i <= self.environments@.len(),
                es == self.environments@,
                self.version == 1,
                environment_named(*self, self.default_environment@) is Some,
                first_environment_problem(es) == first_environment_problem(es.skip(i as int)),
            decreases self.environments@.len() - i,
        {
            let e = self.environments.entry(i);
            proof {
                assert(es.skip(i as int)[0] == e@);
                assert(es.skip(i as int).drop_first() =~= es.skip(i + 1));
            }
            let key_env = trim_text(e.config.api_key_env.as_str());
            if key_env.as_str().is_empty() {
                let mut m = owned("environment '");
                m.push_str(e.name.as_str());
                m.push_str("': api_key_env must not be empty");
                return Err(Error::Config(m));
            }
            if !e.config.api_endpoint.has_web_scheme() {
                let mut m = owned("environment '");
                m.push_str(e.name.as_str());
                m.push_str("': api_endpoint must use http or https (got '");
                m.push_str(e.config.api_endpoint.scheme.as_str());
                m.push_str("')");
                return Err(Error::Config(m));
            }
            i = i + 1;
        }
        Ok(())
    }

    fn chosen_name(&self, env_override: Option<&str>) -> (r: String)
        ensures
            r@ == environment_name(*self, opt_str(env_override)),
    {
        match env_override {
            Some(n) => owned(n),
            None => self.default_environment.clone(),
        }
    }

    fn names(&self) -> (r: Vec<String>)
        ensures
            strs(r@) == names_of::<Environment>(self.environments@),
    {
        let mut out: Vec<String> = Vec::new();
        let mut i: usize = 0;
        while i < self.environments.len()
            invariant
                i <= self.environments@.len(),
                out@.len() == i,
                forall|j: int| 0 <= j < i ==> (#[trigger] out@[j])@ == self.environments@[j].name,
            decreases self.environments@.len() - i,
        {
            out.push(self.environments.entry(i).name.clone());
            i = i + 1;
        }
        assert(strs(out@) =~= names_of::<Environment>(self.environments@));
        out
    }

    fn unknown(&self, name: &str) -> (r: Error)
        ensures
            r matches Error::Config(m) && m@ == unknown_environment(*self, name@),
    {
        let mut m = owned("unknown environment '");
        m.push_str(name);
        m.push_str("'; declared: [");
        m.push_str(join_text(&self.names(), ", ").as_str());
        m.push_str("]");
        Error::Config(m)
    }

    /// The variable to read the API key from.
    pub fn api_key_variable(&self, env_override: Option<&str>) -> (r: Result<String, Error>)
        ensures
            ({
                let name = environment_name(*self, opt_str(env_override));
                match environment_named(*self, name) {
                    Some(env) => r matches Ok(v) && v@ == env.api_key_env,
                    None => r matches Err(Error::Config(m)) && m@ == unknown_environment(
                        *self,
                        name,
                    ),
                }
            }),
    {
        let name = self.chosen_name(env_override);
        match self.environments.get(name.as_str()) {
            Some(env) => Ok(env.config.api_key_env.clone()),
            None => Err(self.unknown(name.as_str())),
        }
    }

    /// Picks an environment, given what its variable holds.
    pub fn resolve_with_key(self, env_override: Option<&str>, key: Option<String>) -> (r: Result<
        ResolvedConfig,
        Error,
    >)
        ensures
            resolution(self, opt_str(env_override), opt_text(key), r),
    {
        let name = self.chosen_name(env_override);
        match self.environments.get(name.as_str()) {
            None => Err(self.unknown(name.as_str())),
            Some(env) => {
                match key {
                    None => Err(Error::MissingEnv(env.config.api_key_env.clone())),
                    Some(k) => {
                        if k.as_str().is_empty() {
                            let mut m = owned("environment variable '");
                            m.push_str(env.config.api_key_env.as_str());
                            m.push_str("' is set but empty");
                            return Err(Error::Config(m));
                        }
                        let api_endpoint = env.config.api_endpoint.clone();
                        Ok(
                            ResolvedConfig {
                                environment_name: name,
                                api_endpoint,
                                api_key: ApiKey::new(k),
                                resources: self.resources,
                                naming: self.naming,
                            },
                        )
                    },
                }
            },
        }
    }

    /// Picks an environment. Its variable is looked up by the given function;
    /// no other one is.
    pub fn resolve_with(
        self,
        env_override: Option<&str>,
        env_lookup: impl Fn(&str) -> Option<String>,
    ) -> (r: Result<ResolvedConfig, Error>)
        requires
            forall|k: &str| call_requires(env_lookup, (k,)),
        ensures
            match environment_named(self, environment_name(self, opt_str(env_override))) {
                None => resolution(self, opt_str(env_override), None, r),
                Some(env) => exists|k: &str, v: Option<String>|
                    k@ == env.api_key_env && call_ensures(env_lookup, (k,), v) && resolution(
                        self,
                        opt_str(env_override),
                        opt_text(v),
                        r,
                    ),
            },
    {
        let ghost cfg = self;
        match self.api_key_variable(env_override) {
            Err(e) => Err(e),
            Ok(variable) => {
                let k = variable.as_str();
                let v = env_lookup(k);
                let ghost found = v;
                let r = self.resolve_with_key(env_override, v);
                assert(call_ensures(env_lookup, (k,), found));
                r
            },
        }
    }
}

/// An environment is right exactly if it names a variable and an address of
/// the web; what is said of one that is not names it.
pub proof fn environments_need_a_key_and_a_web_address(e: EnvironmentView)
    ensures
        environment_problem(e) is None <==> trim(e.api_key_env).len() > 0 && (
        e.api_endpoint.scheme == "http"@ || e.api_endpoint.scheme == "https"@),
        environment_problem(e) matches Some(m) ==> is_shown("'"@ + e.name + "'"@, m),
        trim(e.api_key_env).len() > 0 ==> (environment_problem(e) matches Some(m) ==> is_shown(
            e.api_endpoint.scheme,
            m,
        )),
{
    reveal_strlit("'");
    reveal_strlit("environment '");
    reveal_strlit("': api_key_env must not be empty");
    reveal_strlit("': api_endpoint must use http or https (got '");
    let a = "environment '"@;
    let w = "'"@ + e.name + "'"@;
    if trim(e.api_key_env).len() == 0 {
        let z = "': api_key_env must not be empty"@;
        let m = a + e.name + z;
        assert(m =~= a.drop_last() + w + z.drop_first());
        lemma_shown_between(a.drop_last(), w, z.drop_first());
    } else if !is_web(e.api_endpoint) {
        let s = e.api_endpoint.scheme;
        let b = "': api_endpoint must use http or https (got '"@;
        let m = a + e.name + b + s + "')"@;
        assert(m =~= a.drop_last() + w + (b.drop_first() + s + "')"@));
        lemma_shown_between(a.drop_last(), w, b.drop_first() + s + "')"@);
        lemma_shown_between(a + e.name + b, s, "')"@);
    }
}

proof fn lemma_all_environments(es: Seq<EnvironmentView>)
    ensures
        first_environment_problem(es) is None <==> forall|i: int|
            0 <= i < es.len() ==> environment_problem(#[trigger] es[i]) is None,
        first_environment_problem(es) matches Some(m) ==> exists|i: int|
            0 <= i < es.len() && environment_problem(#[trigger] es[i]) == Some(m),
    decreases es.len(),
{
    if es.len() > 0 {
        let rest = es.drop_first();
        lemma_all_environments(rest);
        assert forall|i: int| 0 <= i < rest.len() implies #[trigger] rest[i] == es[i + 1] by {}
        if environment_problem(es[0]) is None {
            if let Some(m) = first_environment_problem(rest) {
                let i = choose|i: int|
                    0 <= i < rest.len() && environment_problem(#[trigger] rest[i]) == Some(m);
                assert(environment_problem(es[i + 1]) == Some(m));
            } else {
                assert forall|i: int| 0 <= i < es.len() implies environment_problem(
                    #[trigger] es[i],
                ) is None by {
                    if i > 0 {
                        assert(es[i] == rest[i - 1]);
                    }
                }
            }
        }
    }
}

/// A file is right exactly if it is of the one version that is understood,
/// its usual environment is declared, and every environment is right.
pub proof fn right_configurations_pass(cfg: ConfigFile)
    ensures
        static_problem(cfg) is None <==> cfg.version == 1 && names_of::<Environment>(
            cfg.environments@,
        ).contains(cfg.default_environment@) && (forall|i: int|
            0 <= i < cfg.environments@.len() ==> trim(
                (#[trigger] cfg.environments@[i]).api_key_env,
            ).len() > 0 && (cfg.environments@[i].api_endpoint.scheme == "http"@
                || cfg.environments@[i].api_endpoint.scheme == "https"@)),
        cfg.version != 1 ==> is_shown(decimal(cfg.version as nat), static_problem(cfg)->0),
{
    let es = cfg.environments@;
    crate::order::lemma_last_named_some::<Environment>(es, cfg.default_environment@);
    lemma_all_environments(es);
    assert forall|i: int| 0 <= i < es.len() implies (environment_problem(#[trigger] es[i]) is None
        <==> trim(es[i].api_key_env).len() > 0 && (es[i].api_endpoint.scheme == "http"@
        || es[i].api_endpoint.scheme == "https"@)) by {
        environments_need_a_key_and_a_web_address(es[i]);
    }
    if cfg.version != 1 {
        let a = "unsupported config version "@;
        let n = decimal(cfg.version as nat);
        let m = static_problem(cfg)->0;
        assert(m =~= a + n + m.skip((a.len() + n.len()) as int));
        lemma_shown_between(a, n, m.skip((a.len() + n.len()) as int));
    }
    if first_environment_problem(es) is None {
        assert forall|i: int| 0 <= i < es.len() implies trim((#[trigger] es[i]).api_key_env).len()
            > 0 && (es[i].api_endpoint.scheme == "http"@ || es[i].api_endpoint.scheme
            == "https"@) by {
            assert(environment_problem(es[i]) is None);
        }
    }
}

/// What is said of an environment that is not declared names it and every one
/// that is.
pub proof fn unknown_environment_lists_the_declared(cfg: ConfigFile, name: Seq<char>, i: int)
    requires
        0 <= i < cfg.environments@.len(),
    ensures
        is_shown("'"@ + name + "'"@, unknown_environment(cfg, name)),
        is_shown(cfg.environments@[i].name, unknown_environment(cfg, name)),
{
    reveal_strlit("'");
    reveal_strlit("unknown environment '");
    reveal_strlit("'; declared: [");
    let ns = names_of::<Environment>(cfg.environments@);
    let l = join(ns, ", "@);
    let a = "unknown environment '"@;
    let b = "'; declared: ["@;
    let w = "'"@ + name + "'"@;
    let t = unknown_environment(cfg, name);
    assert(t =~= a.drop_last() + w + (b.drop_first() + l + "]"@));
    lemma_shown_between(a.drop_last(), w, b.drop_first() + l + "]"@);
    lemma_shown_between(a + name + b, l, "]"@);
    assert(ns[i] == cfg.environments@[i].name);
    crate::text::lemma_shown_joined(ns, ", "@, i);
    crate::text::lemma_shown_through(ns[i], l, t);
}

/// A configuration that was resolved is for the environment asked for, or
/// for the usual one: it has the address of that environment, the key that
/// was read, and the settings of the file.
pub proof fn resolved_configuration_is_for_its_environment(
    cfg: ConfigFile,
    wanted: Option<Seq<char>>,
    key: Option<Seq<char>>,
    r: Result<ResolvedConfig, Error>,
) -> (i: int)
    requires
        resolution(cfg, wanted, key, r),
        r is Ok,
    ensures
        0 <= i < cfg.environments@.len(),
        cfg.environments@[i].name == r->Ok_0.environment_name@,
        cfg.environments@[i].api_endpoint == r->Ok_0.api_endpoint@,
        wanted matches Some(n) ==> r->Ok_0.environment_name@ == n,
        wanted is None ==> r->Ok_0.environment_name@ == cfg.default_environment@,
        key == Some(r->Ok_0.api_key@),
        r->Ok_0.api_key@.len() > 0,
        r->Ok_0.resources == cfg.resources,
        r->Ok_0.naming == cfg.naming,
{
    let name = environment_name(cfg, wanted);
    crate::order::lemma_last_named_some::<Environment>(cfg.environments@, name);
    let e = environment_named(cfg, name)->0;
    choose|i: int| 0 <= i < cfg.environments@.len() && cfg.environments@[i] == e
}

/// A configuration is not resolved exactly if the environment is not
/// declared, or its variable is not set, or the variable is empty; the
/// variable that is reported is that of the environment.
pub proof fn unresolved_for_want_of_environment_or_key(
    cfg: ConfigFile,
    wanted: Option<Seq<char>>,
    key: Option<Seq<char>>,
    r: Result<ResolvedConfig, Error>,
)
    requires
        resolution(cfg, wanted, key, r),
    ensures
        r is Ok <==> names_of::<Environment>(cfg.environments@).contains(
            if wanted is Some {
                wanted->0
            } else {
                cfg.default_environment@
            },
        ) && key is Some && key->0.len() > 0,
        r matches Err(Error::MissingEnv(v)) ==> key is None && (exists|i: int|
            0 <= i < cfg.environments@.len() && (#[trigger] cfg.environments@[i]).api_key_env == v@
                && cfg.environments@[i].name == if wanted is Some {
                wanted->0
            } else {
                cfg.default_environment@
            }),
        r is Err ==> (r matches Err(Error::MissingEnv(_)) || r matches Err(Error::Config(_))),
{
    let name = environment_name(cfg, wanted);
    crate::order::lemma_last_named_some::<Environment>(cfg.environments@, name);
    if let Some(e) = environment_named(cfg, name) {
        let i = choose|i: int| 0 <= i < cfg.environments@.len() && cfg.environments@[i] == e;
        assert(cfg.environments@[i].name == name);
    }
}

} // verus!
