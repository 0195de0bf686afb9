//! Which page of the dashboard a route designates.
use vstd::prelude::*;

verus! {

/// A location in the dashboard. Numeric ids name records; dashboards are
/// named by the record's name.
pub enum Route {
    About,
    Dashboard,
    Filesystems,
    Filesystem(u32),
    FsDashboard(String),
    ServerDashboard(String),
    TargetDashboard(String),
    Jobstats,
    Login,
    Mgt,
    NotFound,
    OstPools,
    OstPool(u32),
    PowerControl,
    Servers,
    Server(u32),
    Targets,
    Target(u32),
    Users,
    User(u32),
    Volumes,
    Volume(u32),
}

/// The page on display, with the record or name it shows.
pub enum Page {
    About,
    AppLoading,
    Filesystems,
    Filesystem(u32),
    Dashboard,
    FsDashboard(String),
    ServerDashboard(String),
    TargetDashboard(String),
    Jobstats,
    Login,
    Mgts,
    NotFound,
    OstPools,
    OstPool(u32),
    PowerControl,
    Servers,
    Server(u32),
    Targets,
    Target(u32),
    Users,
    User(u32),
    Volumes,
    Volume(u32),
}

/// The route designates the page: the same kind of page, and for a record
/// or a dashboard the same id or name.
pub open spec fn designates(route: Route, page: Page) -> bool {
    match route {
        Route::About => page is About,
        Route::Dashboard => page is Dashboard,
        Route::Filesystems => page is Filesystems,
        Route::Filesystem(id) => page matches Page::Filesystem(x) && x == id,
        Route::FsDashboard(n) => page matches Page::FsDashboard(x) && x@ == n@,
        Route::ServerDashboard(n) => page matches Page::ServerDashboard(x) && x@ == n@,
        Route::TargetDashboard(n) => page matches Page::TargetDashboard(x) && x@ == n@,
        Route::Jobstats => page is Jobstats,
        Route::Login => page is Login,
        Route::Mgt => page is Mgts,
        Route::NotFound => page is NotFound,
        Route::OstPools => page is OstPools,
        Route::OstPool(id) => page matches Page::OstPool(x) && x == id,
        Route::PowerControl => page is PowerControl,
        Route::Servers => page is Servers,
        Route::Server(id) => page matches Page::Server(x) && x == id,
        Route::Targets => page is Targets,
        Route::Target(id) => page matches Page::Target(x) && x == id,
        Route::Users => page is Users,
        Route::User(id) => page matches Page::User(x) && x == id,
        Route::Volumes => page is Volumes,
        Route::Volume(id) => page matches Page::Volume(x) && x == id,
    }
}

impl Page {
    /// Is the given route equivalent to the current page?
    pub fn is_active(&self, route: &Route) -> (r: bool)
        ensures
            r == designates(*route, *self),
    {
        match route {
            Route::About => matches!(self, Page::About),
            Route::Dashboard => matches!(self, Page::Dashboard),
            Route::Filesystems => matches!(self, Page::Filesystems),
            Route::Filesystem(id) => match self {
                Page::Filesystem(x) => *x == *id,
                _ => false,
            },
            Route::FsDashboard(n) => match self {
                Page::FsDashboard(x) => *x == *n,
                _ => false,
            },
            Route::ServerDashboard(n) => match self {
                Page::ServerDashboard(x) => *x == *n,
                _ => false,
            },
            Route::TargetDashboard(n) => match self {
                Page::TargetDashboard(x) => *x == *n,
                _ => false,
            },
            Route::Jobstats => matches!(self, Page::Jobstats),
            Route::Login => matches!(self, Page::Login),
            Route::Mgt => matches!(self, Page::Mgts),
            Route::NotFound => matches!(self, Page::NotFound),
            Route::OstPools => matches!(self, Page::OstPools),
            Route::OstPool(id) => match self {
                Page::OstPool(x) => *x == *id,
                _ => false,
            },
            Route::PowerControl => matches!(self, Page::PowerControl),
            Route::Servers => matches!(self, Page::Servers),
            Route::Server(id) => match self {
                Page::Server(x) => *x == *id,
                _ => false,
            },
            Route::Targets => matches!(self, Page::Targets),
            Route::Target(id) => match self {
                Page::Target(x) => *x == *id,
                _ => false,
            },
            Route::Users => matches!(self, Page::Users),
            Route::User(id) => match self {
                Page::User(x) => *x == *id,
                _ => false,
            },
            Route::Volumes => matches!(self, Page::Volumes),
            Route::Volume(id) => match self {
                Page::Volume(x) => *x == *id,
                _ => false,
            },
        }
    }
}

} // verus!
