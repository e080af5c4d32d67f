use ntl::activation::NodeClass;
use ntl::config::{ConfigError, NodeConfig, StorageConfig};
use ntl::learning::DeploymentClass;
use ntl::scalar::Scalar;

fn f(x: f32) -> Scalar {
    Scalar::from_bits(x.to_bits())
}

#[test]
fn a_crypto_module_this_build_cannot_provide_is_rejected() {
    let mut config = NodeConfig::default();
    assert_eq!(
        config.crypto_module, "classical-v1",
        "the default must name what the build actually uses"
    );
    config.validate().expect("the default must validate");

    for bogus in ["pq-v1", "hybrid-v1", "", "CLASSICAL-V1"] {
        config.crypto_module = bogus.to_string();
        let err = config
            .validate()
            .expect_err("an unsupported module must be refused")
            .message();
        assert!(
            err.contains("crypto_module"),
            "the error must name the field, got {err:?}"
        );
        assert!(
            err.contains("classical-v1"),
            "the error must say what is supported, got {err:?}"
        );
    }
}


#[test]
fn default_config_is_valid() {
    NodeConfig::default()
        .validate()
        .expect("shipped defaults must be self-consistent");
}

#[test]
fn every_class_default_is_valid() {
    for class in [
        DeploymentClass::Edge,
        DeploymentClass::FullNode,
        DeploymentClass::HighTraffic,
    ] {
        NodeConfig::for_class(class)
            .validate()
            .unwrap_or_else(|e| panic!("{class:?} defaults invalid: {e:?}"));
    }
}

#[test]
fn class_defaults_pair_activation_with_learning() {
    let edge = NodeConfig::for_class(DeploymentClass::Edge);
    assert_eq!(
        edge.activation.node_class,
        NodeClass::Edge
    );
    let high = NodeConfig::for_class(DeploymentClass::HighTraffic);
    assert_eq!(
        high.activation.node_class,
        NodeClass::Server
    );
    assert!(high.propagation.max_fanout > edge.propagation.max_fanout);
}

#[test]
fn validation_catches_dedup_shorter_than_retry_budget() {
    let mut c = NodeConfig::default();
    c.propagation.dedup_cache_seconds = 5;
    c.retry.total_deadline_secs = 300;
    assert!(c.validate().is_err());
}


#[test]
fn storage_default_is_sqlite_without_history() {
    match NodeConfig::default().storage {
        StorageConfig::Sqlite {
            retain_signal_history,
            ..
        } => assert!(
            !retain_signal_history,
            "signal history must default to off — payloads are sensitive"
        ),
        other => panic!("expected sqlite default, got {other:?}"),
    }
}

#[test]
fn the_first_broken_rule_is_reported() {
    let mut config = NodeConfig::default();
    config.synapse.max_weight = f(2.0);
    assert!(matches!(
        config.validate(),
        Err(ConfigError::SynapseMaxWeight(_, _))
    ));
    config.activation.fire_batch_size = 0;
    assert!(matches!(config.validate(), Err(ConfigError::FireBatchSize)));
}

#[test]
fn a_dedup_window_must_cover_the_retries() {
    let mut config = NodeConfig::default();
    config.propagation.dedup_cache_seconds = config.retry.total_deadline_secs - 1;
    match config.validate() {
        Err(ConfigError::DedupWindow(window, deadline)) => assert_eq!(window + 1, deadline),
        other => panic!("expected the window to be refused, got {other:?}"),
    }
    config.propagation.dedup_cache_seconds += 1;
    assert!(config.validate().is_ok());
}

#[test]
fn an_unknown_module_is_given_back_in_its_error() {
    let mut config = NodeConfig::default();
    config.crypto_module = "pq-v1".to_string();
    match config.validate() {
        Err(ConfigError::CryptoModule(name)) => assert_eq!(name, "pq-v1"),
        other => panic!("expected the module to be refused, got {other:?}"),
    }
}
