use vstd::prelude::*;

verus! {

/// Settings of the pool and of the jobs around it. Durations are in seconds;
/// the least success rate is in thousandths.
#[derive(Clone, Debug)]
pub struct Config {
    pub listen_addr: String,
    pub health_check_interval_secs: u64,
    pub validation_timeout_secs: u64,
    pub validation_concurrency: usize,
    pub fetch_interval_secs: u64,
    pub cooldown_ttl_secs: u64,
    pub max_pool_size: usize,
    /// A proxy checked at least five times whose success rate is below this
    /// many thousandths is evicted.
    pub min_success_rate_permille: u32,
    pub max_consecutive_failures: u32,
    /// URLs that a check tries in turn; a proxy passes when one of them
    /// answers as expected.
    pub test_urls: Vec<String>,
    pub test_expected_status: u16,
    /// A word the answer's body must hold; an empty word skips that test.
    pub test_expected_body: String,
    /// Upstream proxy for fetching the source lists; empty for a direct
    /// connection (e.g. `http://127.0.0.1:7890` or `socks5://127.0.0.1:1080`).
    pub fetch_upstream_proxy: String,
}

impl Default for Config {
    /// The settings the service starts with.
    fn default() -> (c: Config)
        ensures
            c.listen_addr@ == "0.0.0.0:3000"@,
            c.health_check_interval_secs == 60,
            c.validation_timeout_secs == 8,
            c.validation_concurrency == 256,
            c.fetch_interval_secs == 300,
            c.cooldown_ttl_secs == 120,
            c.max_pool_size == 5000,
            c.min_success_rate_permille == 300,
            c.max_consecutive_failures == 3,
            c.test_urls@.len() == 2,
            c.test_urls@[0]@ == "http://api.ipify.org/?format=json"@,
            c.test_urls@[1]@ == "https://api.ipify.org/?format=json"@,
            c.test_expected_status == 200,
            c.test_expected_body@ == "ip"@,
            c.fetch_upstream_proxy@ == ""@,
    {
        let mut test_urls: Vec<String> = Vec::new();
        test_urls.push(String::from_str("http://api.ipify.org/?format=json"));
        test_urls.push(String::from_str("https://api.ipify.org/?format=json"));
        Config {
            listen_addr: String::from_str("0.0.0.0:3000"),
            health_check_interval_secs: 60,
            validation_timeout_secs: 8,
            validation_concurrency: 256,
            fetch_interval_secs: 300,
            cooldown_ttl_secs: 120,
            max_pool_size: 5000,
            min_success_rate_permille: 300,
            max_consecutive_failures: 3,
            test_urls,
            test_expected_status: 200,
            test_expected_body: String::from_str("ip"),
            fetch_upstream_proxy: String::from_str(""),
        }
    }
}

} // verus!
