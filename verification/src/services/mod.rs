//! The service modules and the manager that loads them.

pub mod logger;
pub mod http;

use vstd::prelude::*;
use crate::config::ModuleItem;
use crate::text::str_eq;
use self::logger::{Logger, logger_name, log_path_key, normalize_log_path};

verus! {

/// What every service module offers the manager.
pub trait ServiceModule {
    /// The name the module is registered under.
    fn get_name(&self) -> &'static str;
}

impl ServiceModule for Logger {
    fn get_name(&self) -> (res: &'static str)
        ensures
            res@ == logger_name(),
    {
        proof {
            reveal_strlit("logger");
            assert("logger"@ =~= logger_name());
        }
        "logger"
    }
}

/// A module that the manager can load from the configuration.
pub enum BuiltinModule {
    Logger(Logger),
}

/// The name a built-in module is registered under.
pub open spec fn module_name(m: BuiltinModule) -> Seq<char> {
    match m {
        BuiltinModule::Logger(_) => logger_name(),
    }
}

impl ServiceModule for BuiltinModule {
    fn get_name(&self) -> (res: &'static str)
        ensures
            res@ == module_name(*self),
    {
        match self {
            BuiltinModule::Logger(l) => l.get_name(),
        }
    }
}

/// The `m_type` of the modules that are built into the program.
pub open spec fn builtin_type() -> Seq<char> {
    seq!['b', 'u', 'i', 'l', 't', '-', 'i', 'n']
}

/// The configuration item asks for the built-in logger.
pub open spec fn loads_logger(item: ModuleItem) -> bool {
    item.m_type@ == builtin_type() && item.m_name@ == logger_name()
}

/// Every item that asks for the logger names its log directory.
pub open spec fn logger_items_configured(items: Seq<ModuleItem>) -> bool {
    forall|i: int|
        0 <= i < items.len() && #[trigger] loads_logger(items[i]) ==> items[i].m_param@.contains_key(
            log_path_key(),
        )
}

/// Item `i` is the last item of `items` that asks for the logger.
pub open spec fn last_logger_item(items: Seq<ModuleItem>, i: int) -> bool {
    0 <= i < items.len() && loads_logger(items[i]) && forall|j: int|
        i < j < items.len() ==> !#[trigger] loads_logger(items[j])
}

/// Some entry of `s` is registered under `k`.
pub open spec fn has_module(s: Seq<BuiltinModule>, k: Seq<char>) -> bool {
    exists|i: int| 0 <= i < s.len() && #[trigger] module_name(s[i]) == k
}

/// The position of an entry of `s` registered under `k`.
pub open spec fn module_index(s: Seq<BuiltinModule>, k: Seq<char>) -> int {
    choose|i: int| 0 <= i < s.len() && #[trigger] module_name(s[i]) == k
}

/// The loaded modules, by name.
pub struct ServiceManager {
    m_modules_map: Vec<BuiltinModule>,
}

impl View for ServiceManager {
    type V = Map<Seq<char>, BuiltinModule>;

    closed spec fn view(&self) -> Map<Seq<char>, BuiltinModule> {
        let s = self.m_modules_map@;
        Map::new(|k: Seq<char>| has_module(s, k), |k: Seq<char>| s[module_index(s, k)])
    }
}

impl ServiceManager {
    #[verifier::type_invariant]
    closed spec fn names_distinct(self) -> bool {
        forall|i: int, j: int|
            0 <= i < self.m_modules_map@.len() && 0 <= j < self.m_modules_map@.len() && i != j
                ==> module_name(#[trigger] self.m_modules_map@[i]) != module_name(
                #[trigger] self.m_modules_map@[j],
            )
    }

    /// Loads every module the configuration asks for that is built in.
    /// Where several items ask for the same module, the last one wins.
    pub fn new(_modules: Vec<ModuleItem>) -> (res: ServiceManager)
        requires
            logger_items_configured(_modules@),
        ensures
            forall|k: Seq<char>| #[trigger] res@.contains_key(k) ==> k == logger_name(),
            res@.contains_key(logger_name()) <==> exists|i: int|
                0 <= i < _modules@.len() && #[trigger] loads_logger(_modules@[i]),
            forall|i: int|
                #[trigger] last_logger_item(_modules@, i) ==> (res@[logger_name()] matches BuiltinModule::Logger(l)
                    && l.dir() == normalize_log_path(_modules@[i].m_param@[log_path_key()])),
    {
        let mut logger: Option<Logger> = None;
        let ghost mut last: int = -1;
        let mut i: usize = 0;
        while i < _modules.len()
            invariant
                i <= _modules@.len(),
                logger_items_configured(_modules@),
                -1 <= last < i,
                logger is Some <==> last >= 0,
                last >= 0 ==> loads_logger(_modules@[last]),
                forall|j: int| last < j < i ==> !#[trigger] loads_logger(_modules@[j]),
                logger matches Some(l) ==> l.dir() == normalize_log_path(
                    _modules@[last].m_param@[log_path_key()],
                ),
            decreases _modules@.len() - i,
        {
            let item = &_modules[i];
            if Self::is_logger_item(item) {
                assert(loads_logger(_modules@[i as int]));
                logger = Some(Logger::new(&item.m_param));
                proof {
                    last = i as int;
                }
            }
            i = i + 1;
        }
        let mut map: Vec<BuiltinModule> = Vec::new();
        match logger {
            Some(l) => {
                map.push(BuiltinModule::Logger(l));
            },
            None => {},
        }
        let res = ServiceManager { m_modules_map: map };
        proof {
            let s = res.m_modules_map@;
            if last >= 0 {
                assert(module_name(s[0]) == logger_name());
                assert(has_module(s, logger_name()));
                assert forall|k: int| #[trigger]
                    last_logger_item(_modules@, k) implies k == last by {
                    if k < last {
                        assert(!loads_logger(_modules@[last]));
                    } else if k > last {
                    }
                }
            } else {
                assert forall|k: int| 0 <= k < _modules@.len() implies !#[trigger] loads_logger(
                    _modules@[k],
                ) by {
                    assert(last < k);
                }
            }
        }
        res
    }

    /// Whether the item asks for the built-in logger; the manager loads
    /// such items and no others.
    pub fn is_logger_item(item: &ModuleItem) -> (res: bool)
        ensures
            res == loads_logger(*item),
    {
        proof {
            reveal_strlit("built-in");
            reveal_strlit("logger");
            assert("built-in"@ =~= builtin_type());
            assert("logger"@ =~= logger_name());
        }
        str_eq(item.m_type.as_str(), "built-in") && str_eq(item.m_name.as_str(), "logger")
    }

    /// Every loaded module, each under its own name.
    pub fn modules(&self) -> (res: &Vec<BuiltinModule>)
        ensures
            forall|i: int|
                0 <= i < res@.len() ==> self@.contains_key(module_name(#[trigger] res@[i]))
                    && self@[module_name(res@[i])] == res@[i],
            forall|k: Seq<char>| #[trigger] self@.contains_key(k) ==> has_module(res@, k),
            forall|i: int, j: int|
                0 <= i < res@.len() && 0 <= j < res@.len() && i != j ==> module_name(#[trigger] res@[i])
                    != module_name(#[trigger] res@[j]),
    {
        proof {
            use_type_invariant(self);
            let s = self.m_modules_map@;
            assert forall|i: int| 0 <= i < s.len() implies self@.contains_key(
                module_name(#[trigger] s[i]),
            ) && self@[module_name(s[i])] == s[i] by {
                assert(has_module(s, module_name(s[i])));
                let j = module_index(s, module_name(s[i]));
                assert(module_name(s[j]) == module_name(s[i]));
            }
        }
        &self.m_modules_map
    }

    /// The module registered under `name`, if one is loaded.
    pub fn find(&self, name: &str) -> (res: Option<&BuiltinModule>)
        ensures
            match res {
                Some(m) => self@.contains_key(name@) && self@[name@] == *m,
                None => !self@.contains_key(name@),
            },
    {
        proof {
            use_type_invariant(self);
        }
        let mut i: usize = 0;
        while i < self.m_modules_map.len()
            invariant
                i <= self.m_modules_map@.len(),
                forall|j: int| 0 <= j < i ==> module_name(#[trigger] self.m_modules_map@[j]) != name@,
            decreases self.m_modules_map@.len() - i,
        {
            let m = &self.m_modules_map[i];
            if str_eq(m.get_name(), name) {
                proof {
                    use_type_invariant(self);
                    let s = self.m_modules_map@;
                    assert(has_module(s, name@));
                    let j = module_index(s, name@);
                    assert(module_name(s[j]) == name@);
                    assert(module_name(s[i as int]) == name@);
                    assert(j == i);
                }
                return Some(m);
            }
            i = i + 1;
        }
        None
    }
}

} // verus!
