use the_dagwood::config::FuelConfig;

#[test]
fn test_fuel_config_validate_and_clamp() {
    let config = FuelConfig {
        default: Some(100_000_000),
        minimum: Some(10_000_000),
        maximum: Some(200_000_000),
    };

    assert_eq!(config.validate_and_clamp(50_000_000), 50_000_000);
    assert_eq!(config.validate_and_clamp(1_000_000), 10_000_000);
    assert_eq!(config.validate_and_clamp(1_000_000_000), 200_000_000);
    assert_eq!(config.validate_and_clamp(10_000_000), 10_000_000);
    assert_eq!(config.validate_and_clamp(200_000_000), 200_000_000);
}

#[test]
fn test_fuel_config_validate_with_defaults() {
    let config = FuelConfig::default();

    assert_eq!(config.validate_and_clamp(50_000_000), 50_000_000);
    assert_eq!(config.validate_and_clamp(100), 1_000_000);
    assert_eq!(config.validate_and_clamp(1_000_000_000), 500_000_000);
}
