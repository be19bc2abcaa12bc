//! Configuration values that the crawl engine reads.

use vstd::prelude::*;

verus! {

/// HTTP request timeout in milliseconds.
pub const REQUEST_TIMEOUT_MS: u64 = 10000;

/// Default number of concurrent workers.
pub const DEFAULT_WORKERS: usize = 8;

/// Default maximum crawl depth.
pub const DEFAULT_MAX_DEPTH: usize = 1000;

/// Network section of the configuration file.
pub struct NetworkConfig {
    pub request_timeout_ms: u64,
}

/// Output section of the configuration file.
pub struct OutputConfig {
    pub default_save_dir: String,
}

/// Crawler section of the configuration file.
pub struct CrawlerConfigSection {
    pub base_url: String,
    pub worker_count: usize,
    pub max_depth: usize,
    pub user_agent: String,
}

/// The whole configuration file.
pub struct AppConfig {
    pub crawler: CrawlerConfigSection,
    pub network: NetworkConfig,
    pub output: OutputConfig,
}

/// What one crawl is run with.
pub struct CrawlerConfig {
    pub base_url: String,
    pub worker_count: usize,
    pub max_depth: usize,
    pub user_agent: String,
    /// Allowed host patterns (`example.com`, `*.example.com`); empty means
    /// any host.
    pub allowed_domains: Vec<String>,
}

impl Default for NetworkConfig {
    fn default() -> (r: Self)
        ensures
            r.request_timeout_ms == REQUEST_TIMEOUT_MS,
    {
        NetworkConfig { request_timeout_ms: REQUEST_TIMEOUT_MS }
    }
}

impl Default for OutputConfig {
    fn default() -> (r: Self)
        ensures
            r.default_save_dir@ == "output"@,
    {
        OutputConfig { default_save_dir: "output".to_string() }
    }
}

impl Default for CrawlerConfigSection {
    fn default() -> (r: Self)
        ensures
            r.base_url@ == "https://invest.fiwealth.com/"@,
            r.worker_count == DEFAULT_WORKERS,
            r.max_depth == DEFAULT_MAX_DEPTH,
            r.user_agent@ == "Mozilla/5.0 (compatible; RustCrawler/1.0)"@,
    {
        CrawlerConfigSection {
            base_url: "https://invest.fiwealth.com/".to_string(),
            worker_count: DEFAULT_WORKERS,
            max_depth: DEFAULT_MAX_DEPTH,
            user_agent: "Mozilla/5.0 (compatible; RustCrawler/1.0)".to_string(),
        }
    }
}

impl Default for AppConfig {
    fn default() -> (r: Self)
        ensures
            r.crawler.worker_count == DEFAULT_WORKERS,
            r.crawler.max_depth == DEFAULT_MAX_DEPTH,
            r.network.request_timeout_ms == REQUEST_TIMEOUT_MS,
            r.output.default_save_dir@ == "output"@,
    {
        AppConfig {
            crawler: CrawlerConfigSection::default(),
            network: NetworkConfig::default(),
            output: OutputConfig::default(),
        }
    }
}

impl Default for CrawlerConfig {
    fn default() -> (r: Self)
        ensures
            r.worker_count == DEFAULT_WORKERS,
            r.max_depth == DEFAULT_MAX_DEPTH,
            r.allowed_domains@.len() == 0,
    {
        let section = CrawlerConfigSection::default();
        CrawlerConfig {
            base_url: section.base_url,
            worker_count: section.worker_count,
            max_depth: section.max_depth,
            user_agent: section.user_agent,
            allowed_domains: Vec::new(),
        }
    }
}

} // verus!
