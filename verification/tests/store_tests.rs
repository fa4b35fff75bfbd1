use std::cell::RefCell;

use pkgtools::store::{closure_size_of_output, CombinedStoreBackend, StoreBackend, StoreError};

use pkgtools::package_diff::{write_package_diff, write_paths_diffln, PackageDiffError};

struct MockStoreBackend {
    name: String,
    connected: bool,
    fail_connect: bool,
    fail_query: bool,
    query_called: RefCell<bool>,
}

impl MockStoreBackend {
    fn new(name: &str, fail_connect: bool, fail_query: bool) -> Self {
        Self {
            name: name.to_string(),
            connected: false,
            fail_connect,
            fail_query,
            query_called: RefCell::new(false),
        }
    }
}

impl StoreBackend for MockStoreBackend {
    fn is_connected(&self) -> bool {
        self.connected
    }

    fn connect_answer(&self, after: &Self, r: &Result<(), StoreError>) -> bool {
        after.connected == (self.connected || !self.fail_connect) && r.is_ok() == !self.fail_connect
    }

    fn closure_size_answer(&self, _path: &str, r: &Result<u64, StoreError>) -> bool {
        r.is_ok() == !self.fail_query
    }

    fn system_derivations_answer(&self, _system: &str, _r: &Result<Vec<String>, StoreError>) -> bool {
        false
    }

    fn dependents_answer(&self, _path: &str, _r: &Result<Vec<String>, StoreError>) -> bool {
        false
    }

    fn connect(&mut self) -> Result<(), StoreError> {
        if self.fail_connect {
            Err(StoreError::Backend(format!("{}: Connection failed", self.name)))
        } else {
            self.connected = true;
            Ok(())
        }
    }

    fn connected(&self) -> bool {
        self.connected
    }

    fn close(&mut self) -> Result<(), StoreError> {
        self.connected = false;
        Ok(())
    }

    fn query_closure_size(&self, _path: &str) -> Result<u64, StoreError> {
        *self.query_called.borrow_mut() = true;
        if self.fail_query {
            Err(StoreError::Backend("Query failed".to_string()))
        } else {
            Ok(100)
        }
    }

    fn query_system_derivations(&self, _system: &str) -> Result<Vec<String>, StoreError> {
        unreachable!()
    }

    fn query_dependents(&self, _path: &str) -> Result<Vec<String>, StoreError> {
        unreachable!()
    }
}

#[test]
fn test_connect_fallback() {
    let f1 = MockStoreBackend::new("f1", true, false);
    let f2 = MockStoreBackend::new("f2", false, false);
    let mut combined = CombinedStoreBackend::new(vec![f1, f2]);

    assert!(combined.connect().is_ok());
    assert!(combined.connected());
}

#[test]
fn test_connect_all_fail() {
    let f1 = MockStoreBackend::new("f1", true, false);
    let f2 = MockStoreBackend::new("f2", true, false);
    let mut combined = CombinedStoreBackend::new(vec![f1, f2]);

    assert!(combined.connect().is_err());
    assert!(!combined.connected());
}

#[test]
fn test_query_fallback() {
    let f1 = MockStoreBackend::new("f1", false, true);
    let f2 = MockStoreBackend::new("f2", false, false);
    let mut combined = CombinedStoreBackend::new(vec![f1, f2]);

    combined.connect().unwrap();

    let res = combined.query_closure_size("/dummy");
    assert!(res.is_ok());
    assert_eq!(res.unwrap(), 100);
}

#[test]
fn test_query_skip_unconnected() {
    let f1 = MockStoreBackend::new("f1", true, false);
    let f2 = MockStoreBackend::new("f2", false, false);
    let mut combined = CombinedStoreBackend::new(vec![f1, f2]);

    combined.connect().unwrap(); // f1 fails, f2 succeeds

    let res = combined.query_closure_size("/dummy");
    assert!(res.is_ok());
    assert_eq!(res.unwrap(), 100);

    let f1 = MockStoreBackend::new("f1", true, false);
    let f2 = MockStoreBackend::new("f2", true, false);
    let f3 = MockStoreBackend::new("f3", false, false);
    let mut combined = CombinedStoreBackend::new(vec![f1, f2, f3]);
    combined.connect().unwrap();

    let res = combined.query_closure_size("/dummy");
    assert_eq!(res.unwrap(), 100);
    assert!(combined.connect().is_ok());
    assert!(combined.connected());
}

#[test]
fn test_query_all_fail() {
    let f1 = MockStoreBackend::new("f1", false, true);
    let f2 = MockStoreBackend::new("f2", false, true);
    let mut combined = CombinedStoreBackend::new(vec![f1, f2]);

    combined.connect().unwrap();

    let res = combined.query_closure_size("/dummy");
    assert!(res.is_err());
}

#[test]
fn connecting_nothing_reports_no_backends() {
    let mut combined: CombinedStoreBackend<MockStoreBackend> = CombinedStoreBackend::new(vec![]);
    assert_eq!(combined.connect(), Err(StoreError::NoBackends));
}

#[test]
fn every_connect_failure_is_reported() {
    let f1 = MockStoreBackend::new("f1", true, false);
    let f2 = MockStoreBackend::new("f2", true, false);
    let mut combined = CombinedStoreBackend::new(vec![f1, f2]);
    assert_eq!(
        combined.connect(),
        Err(StoreError::AllFailedToConnect(vec![
            "f1: Connection failed".to_string(),
            "f2: Connection failed".to_string(),
        ]))
    );
}

#[test]
fn an_unconnected_store_has_nothing_to_query() {
    let f1 = MockStoreBackend::new("f1", false, false);
    let combined = CombinedStoreBackend::new(vec![f1]);
    assert_eq!(combined.query_closure_size("/x"), Err(StoreError::NoStoresToQuery));
}

#[test]
fn closing_disconnects_every_backend() {
    let f1 = MockStoreBackend::new("f1", false, false);
    let f2 = MockStoreBackend::new("f2", false, false);
    let mut combined = CombinedStoreBackend::new(vec![f1, f2]);
    combined.connect().unwrap();
    assert!(combined.close().is_ok());
    assert!(!combined.connected());
}

#[test]
fn a_package_diff_starts_with_a_blank_line() {
    let f1 = MockStoreBackend::new("f1", true, false);
    let mut store = CombinedStoreBackend::new(vec![f1]);
    assert!(matches!(
        write_package_diff(&mut store, "/old", "/new"),
        Err(PackageDiffError::Store(StoreError::AllFailedToConnect(_)))
    ));
}

/// A store that knows the closures of two systems.
struct ClosureStore {
    connected: bool,
}

impl StoreBackend for ClosureStore {
    fn is_connected(&self) -> bool {
        self.connected
    }

    fn connect_answer(&self, after: &Self, r: &Result<(), StoreError>) -> bool {
        after.connected && r.is_ok()
    }

    fn closure_size_answer(&self, _path: &str, r: &Result<u64, StoreError>) -> bool {
        *r == Ok(0)
    }

    fn system_derivations_answer(&self, _system: &str, r: &Result<Vec<String>, StoreError>) -> bool {
        *r == Ok(Vec::new())
    }

    fn dependents_answer(&self, path: &str, r: &Result<Vec<String>, StoreError>) -> bool {
        *r == self.query_dependents(path)
    }

    fn connect(&mut self) -> Result<(), StoreError> {
        self.connected = true;
        Ok(())
    }

    fn connected(&self) -> bool {
        self.connected
    }

    fn close(&mut self) -> Result<(), StoreError> {
        self.connected = false;
        Ok(())
    }

    fn query_closure_size(&self, _path: &str) -> Result<u64, StoreError> {
        Ok(0)
    }

    fn query_system_derivations(&self, _system: &str) -> Result<Vec<String>, StoreError> {
        Ok(Vec::new())
    }

    fn query_dependents(&self, path: &str) -> Result<Vec<String>, StoreError> {
        let version = if path == "/old" { "1.0" } else { "2.0" };
        Ok(vec![
            format!("/nix/store/aaaaaaaaaaaaaaaaaaaaaaaaaaaaaaaa-foo-{version}"),
            "/nix/store/bbbbbbbbbbbbbbbbbbbbbbbbbbbbbbbb-bar-3.0".to_string(),
        ])
    }
}

#[test]
fn a_package_diff_reports_the_upgraded_package() {
    let mut store = CombinedStoreBackend::new(vec![ClosureStore { connected: false }]);
    let (lines, count) = write_paths_diffln(&mut store, "/old", "/new").unwrap();
    assert_eq!(count, 1);
    assert!(lines[0].is_empty());
    assert!(lines.len() > 1);
}

#[test]
fn the_closure_size_is_the_last_word_nix_prints() {
    assert_eq!(
        closure_size_of_output("/nix/store/aaaa-nixos-system/sw\t 123456789\n"),
        Some(123456789)
    );
    assert_eq!(closure_size_of_output("42"), Some(42));
    assert_eq!(closure_size_of_output("size +7 \n\n"), Some(7));
    assert_eq!(closure_size_of_output(""), None);
    assert_eq!(closure_size_of_output(" \n "), None);
    assert_eq!(closure_size_of_output("/nix/store/x 12 bytes"), None);
    assert_eq!(closure_size_of_output("18446744073709551616"), None);
}
