//! The application's commands and the check of its configuration.
use vstd::prelude::*;

verus! {

/// Application commands
#[derive(Debug, Clone, Copy, PartialEq, Eq, Structural)]
pub enum Command {
    /// Generates droplets from the input blockchain according to chosen `storage reduction ratio`
    Generate,
    /// Repeats droplet generation until enough droplets to successfully restore the blockchain were created
    GenerateAll,
    /// Generates header-chain from the input blockchain
    HeaderChain,
    /// Attempts to restore the blockchain from droplets
    Restore,
    /// Removes all droplets
    PurgeDroplets,
}

/// Why a configuration was refused.
#[derive(Debug, Clone, Copy, PartialEq, Eq, Structural)]
pub enum ConfigError {
    /// The storage reduction (compression) ratio must be higher than 0.
    ZeroStorageReductionRatio,
}

/// Configuration object for the application
pub struct Args {
    /// The name of the called command
    pub command: Command,
    pub source_blockchain_dir: String,
    pub output_blockchain_dir: String,
    pub droplets_dir: String,
    pub header_chain_dir: String,
    pub epochs_to_encode: usize,
    pub super_blocks_per_epoch: usize,
    pub storage_reduction_ratio: usize,
}

impl Args {
    /// Builds the configuration from the command and the configuration file's
    /// values, refusing a storage reduction ratio below 1.
    pub fn from_config(
        command: Command,
        source_blockchain_dir: String,
        output_blockchain_dir: String,
        droplets_dir: String,
        header_chain_dir: String,
        epochs_to_encode: usize,
        super_blocks_per_epoch: usize,
        storage_reduction_ratio: usize,
    ) -> (r: Result<Self, ConfigError>)
        ensures
            storage_reduction_ratio < 1 ==> r == Err::<Self, ConfigError>(
                ConfigError::ZeroStorageReductionRatio,
            ),
            storage_reduction_ratio >= 1 ==> (r matches Ok(args) && args.command == command
                && args.source_blockchain_dir@ == source_blockchain_dir@
                && args.output_blockchain_dir@ == output_blockchain_dir@ && args.droplets_dir@
                == droplets_dir@ && args.header_chain_dir@ == header_chain_dir@
                && args.epochs_to_encode == epochs_to_encode && args.super_blocks_per_epoch
                == super_blocks_per_epoch && args.storage_reduction_ratio
                == storage_reduction_ratio),
    {
        if storage_reduction_ratio < 1 {
            return Err(ConfigError::ZeroStorageReductionRatio);
        }
        Ok(Self {
            command,
            source_blockchain_dir,
            output_blockchain_dir,
            droplets_dir,
            header_chain_dir,
            epochs_to_encode,
            super_blocks_per_epoch,
            storage_reduction_ratio,
        })
    }
}

} // verus!
